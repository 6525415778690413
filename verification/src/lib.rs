//! Parser for makedeb-style `.SRCINFO` package metadata.
//!
//! The crate has two independent parts. `SrcInfo` turns the text of a
//! `.SRCINFO` file into a validated key/value document and offers typed
//! accessors driven by a fixed key classification. `SplitPackage` and
//! `SplitDependency` parse dependency tokens (`name`, optional comparison
//! operator and version, `|`-separated alternatives) and render them back in
//! control-file syntax.

mod depend;
mod keys;
mod parser;
mod text;

pub use depend::SplitDependency;
pub use depend::SplitPackage;
pub use keys::base_key;
pub use keys::is_array_key;
pub use keys::is_extendable_key;
pub use keys::is_required_key;
pub use keys::is_string_key;
pub use keys::matches_extension;
pub use parser::ParserError;
pub use parser::SrcInfo;
