//! The package manifest as the builder and the server read it.
use vstd::prelude::*;

verus! {

/// Metadata stored in an archive beside the manifest.
pub struct DocserverInfo {
    pub git_commit: String,
}

/// A package manifest. `features` and `dependencies` keep the order in which
/// the manifest's maps were walked.
pub struct Manifest {
    pub package: Package,
    pub features: Vec<(String, Vec<String>)>,
    pub dependencies: Vec<(String, Dependency)>,
}

/// A dependency as written: a bare version string or a table.
pub enum DependencyEnum {
    Short(String),
    Full(Dependency),
}

pub struct Dependency {
    pub version: Option<String>,
    pub path: Option<String>,
    pub git: Option<String>,
    pub rev: Option<String>,
    pub features: Vec<String>,
    pub no_default_features: bool,
    pub optional: bool,
}

impl Dependency {
    /// The record a bare version string stands for.
    pub fn from_version(version: String) -> (r: Dependency)
        ensures
            r.version == Some(version),
            r.path is None,
            r.git is None,
            r.rev is None,
            r.features@.len() == 0,
            !r.no_default_features,
            !r.optional,
    {
        Dependency {
            version: Some(version),
            path: None,
            git: None,
            rev: None,
            features: Vec::new(),
            no_default_features: false,
            optional: false,
        }
    }

    /// Whether the dependency is local, that is, declares a path.
    pub fn is_local(&self) -> (r: bool)
        ensures
            r == self.path is Some,
    {
        self.path.is_some()
    }
}

impl DependencyEnum {
    /// Both forms decode to the same record.
    pub fn into_dependency(self) -> (r: Dependency)
        ensures
            match self {
                DependencyEnum::Short(v) => r.version == Some(v) && r.path is None && r.git is None
                    && r.rev is None && r.features@.len() == 0 && !r.no_default_features && !r.optional,
                DependencyEnum::Full(d) => r == d,
            },
    {
        match self {
            DependencyEnum::Short(v) => Dependency::from_version(v),
            DependencyEnum::Full(d) => d,
        }
    }
}

pub struct Package {
    pub name: String,
    pub version: String,
    pub metadata: Metadata,
}

pub struct Metadata {
    pub embassy_docs: Docs,
}

/// The documentation section of the manifest.
pub struct Docs {
    pub flavors: Vec<DocsFlavor>,
    pub target: Option<String>,
    pub features: Vec<String>,
    pub src_base: String,
    pub src_base_git: String,
}

/// One flavor rule: exactly one of `name` and `regex_feature` is meant to be set.
pub struct DocsFlavor {
    pub regex_feature: Option<String>,
    pub name: Option<String>,
    pub features: Vec<String>,
    pub target: Option<String>,
}

} // verus!
