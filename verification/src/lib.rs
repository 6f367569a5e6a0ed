use vstd::prelude::*;

mod date;
mod diff;
mod generate;
mod json;
mod manifests;
mod model;
mod parser;
mod roundtrip;
mod text;
mod version;

pub use date::Date;
pub use diff::diff_file;
pub use diff::diff_files;
pub use diff::FileDiff;
pub use generate::generate_section;
pub use generate::generate_str;
pub use json::Json;
pub use manifests::detect_manifests;
pub use manifests::ManifestType;
pub use model::Changelog;
pub use model::Ref;
pub use model::Release;
pub use model::Version;
pub use parser::parse_str;
pub use version::Bump;
pub use version::Change;
pub use version::PreTag;
pub use version::SemVer;

verus! {

} // verus!
