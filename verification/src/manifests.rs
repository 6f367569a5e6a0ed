use vstd::prelude::*;

use vstd::string::StringExecFns;

verus! {

/// A kind of build-metadata file set that can carry the project's version.
#[derive(Debug, PartialEq, Eq, Clone, Copy)]
pub enum ManifestType {
    Cargo,
}

pub open spec fn manifest_label(m: ManifestType) -> Seq<char> {
    match m {
        ManifestType::Cargo => "Rust (Cargo.lock, Cargo.toml)"@,
    }
}

impl ManifestType {
    /// The name this manifest kind goes by in messages.
    pub fn label(&self) -> (r: String)
        ensures
            r@ == manifest_label(*self),
    {
        match self {
            ManifestType::Cargo => "Rust (Cargo.lock, Cargo.toml)".to_owned(),
        }
    }
}

/// The manifest kinds to edit, decided from which files are present; the
/// caller reports what it found on disk.
pub fn detect_manifests(cargo_manifest_present: bool) -> (r: Vec<ManifestType>)
    ensures
        cargo_manifest_present ==> r@ == seq![ManifestType::Cargo],
        !cargo_manifest_present ==> r@.len() == 0,
{
    let mut manifests: Vec<ManifestType> = Vec::new();
    if cargo_manifest_present {
        manifests.push(ManifestType::Cargo);
        assert(manifests@ =~= seq![ManifestType::Cargo]);
    }
    manifests
}

} // verus!
