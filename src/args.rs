//! The settings of the command-line tools, as plain values.
use vstd::prelude::*;

use crate::text::{starts_with, starts_with_exec};
use crate::writer::CompressConfig;

verus! {

/// Compression settings shared by the commands that write archives.
#[derive(Debug, Clone, Copy, PartialEq, Eq, Structural)]
pub struct CompressionArgs {
    pub no_compress: bool,
    pub compress_level: i32,
    pub dict_size: usize,
    pub dict_train_size: usize,
}

impl CompressionArgs {
    /// The compression configuration, unless compression is switched off.
    pub fn to_config(&self) -> (r: Option<CompressConfig>)
        ensures
            r == (if self.no_compress {
                None
            } else {
                Some(CompressConfig { level: self.compress_level, dict_size: self.dict_size, dict_train_size: self.dict_train_size })
            }),
    {
        if self.no_compress {
            None
        } else {
            Some(CompressConfig { level: self.compress_level, dict_size: self.dict_size, dict_train_size: self.dict_train_size })
        }
    }
}

/// Compress a directory into an archive.
pub struct ZupArgs {
    pub input: String,
    pub output: String,
    pub compression: CompressionArgs,
}

/// Extract an archive into a new directory.
pub struct UnzupArgs {
    pub archive: String,
    pub destination: String,
}

/// Extract an archive under `extract/`.
pub struct ExtractArgs {
    pub archive: String,
}

/// Build documentation archives from a package's sources.
pub struct BuildArgs {
    pub input: String,
    pub output: String,
    pub output_static: Option<String>,
    pub temp_dir: String,
    pub compression: CompressionArgs,
}

/// Build documentation archives from a registry release.
pub struct BuildReleaseArgs {
    pub crate_name: String,
    pub version: Option<String>,
    pub all_versions: bool,
    pub webroot: String,
    pub temp_dir: String,
    pub force: bool,
    pub compression: CompressionArgs,
}

/// Which releases a release build covers.
#[derive(Debug, Clone, Copy, PartialEq, Eq, Structural)]
pub enum ReleaseSelection {
    /// The one version given.
    One,
    /// Every version the registry lists.
    All,
}

/// Why a release build's arguments are refused.
#[derive(Debug, Clone, Copy, PartialEq, Eq, Structural)]
pub enum ReleaseArgsError {
    /// Both a version and "all versions" were asked for.
    Both,
    /// Neither a version nor "all versions" was asked for.
    Neither,
}

impl BuildReleaseArgs {
    /// Exactly one of a version and "all versions" must be given.
    pub fn selection(&self) -> (r: Result<ReleaseSelection, ReleaseArgsError>)
        ensures
            r == (match (self.version, self.all_versions) {
                (Some(_), true) => Err(ReleaseArgsError::Both),
                (None, false) => Err(ReleaseArgsError::Neither),
                (Some(_), false) => Ok(ReleaseSelection::One),
                (None, true) => Ok(ReleaseSelection::All),
            }),
    {
        match (&self.version, self.all_versions) {
            (Some(_), true) => Err(ReleaseArgsError::Both),
            (None, false) => Err(ReleaseArgsError::Neither),
            (Some(_), false) => Ok(ReleaseSelection::One),
            (None, true) => Ok(ReleaseSelection::All),
        }
    }
}

/// A registry version is built unless it is yanked or a `0.0.` release.
pub open spec fn version_wanted(version: Seq<u8>, yanked: bool) -> bool {
    !yanked && !starts_with(version, seq![0x30u8, 0x2eu8, 0x30u8, 0x2eu8])
}

pub fn keep_version(version: &[u8], yanked: bool) -> (r: bool)
    ensures
        r == version_wanted(version@, yanked),
{
    let prefix = vec![0x30u8, 0x2eu8, 0x30u8, 0x2eu8];
    assert(prefix@ =~= seq![0x30u8, 0x2eu8, 0x30u8, 0x2eu8]);
    !yanked && !starts_with_exec(version, prefix.as_slice())
}

} // verus!
