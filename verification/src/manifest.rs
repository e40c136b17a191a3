//! What a package's manifest declares, and the index of the manifest files.

use vstd::prelude::*;
use crate::path::{index_by_stem, indexed};
use crate::registry::Registry;
use crate::version::Version;

verus! {

/// The extension of a manifest file.
pub const MANIFEST_EXTENSION: &'static str = "toml";

/// How the installed version of a package is found out: a command to run and
/// a pattern for the version in what it prints.
#[derive(Debug, Default)]
pub struct Versions {
    pub cmd: String,
    pub pattern: String,
    pub format: Option<String>,
}

/// Commands to run before and after a package is installed.
#[derive(Debug, Default)]
pub struct Install {
    pub before: Option<String>,
    pub after: Option<String>,
}

/// Commands to run before and after a package is uninstalled.
#[derive(Debug, Default)]
pub struct Uninstall {
    pub before: Option<String>,
    pub after: Option<String>,
}

/// A package: its name and the binaries that it brings, each a path relative
/// to the root of its download.
#[derive(Debug, Default)]
pub struct Package {
    pub name: String,
    pub binaries: Vec<String>,
}

/// The mathematical value of a [`Package`].
pub struct PackageView {
    pub name: Seq<char>,
    pub binaries: Seq<Seq<char>>,
}

impl View for Package {
    type V = PackageView;

    open spec fn view(&self) -> PackageView {
        PackageView { name: self.name@, binaries: self.binaries.deep_view() }
    }
}

/// Where a package is downloaded from, and the version found there.
#[derive(Debug, Default)]
pub struct Download {
    pub url: String,
    pub version: Option<Version>,
}

/// The manifest of one package.
#[derive(Debug, Default)]
pub struct Manifest {
    pub package: Package,
    pub download: Download,
    pub install: Option<Install>,
    pub uninstall: Option<Uninstall>,
    pub versions: Option<Versions>,
}

impl Manifest {
    /// The manifest with `name` as its package's name. A manifest file is
    /// named after its package and does not repeat the name inside.
    pub fn named(self, name: &str) -> (r: Manifest)
        ensures
            r.package.name@ == name@,
            r.package.binaries == self.package.binaries,
            r.download == self.download,
            r.install == self.install,
            r.uninstall == self.uninstall,
            r.versions == self.versions,
    {
        let mut manifest = self;
        manifest.package.name = name.to_owned();
        manifest
    }
}

/// The manifest files that were found, each under the name of its package.
#[derive(Debug)]
pub struct ManifestFiles {
    files: Registry<String>,
}

impl View for ManifestFiles {
    type V = Map<Seq<char>, Seq<char>>;

    /// The path of the manifest file of each package that has one.
    closed spec fn view(&self) -> Map<Seq<char>, Seq<char>> {
        self.files@
    }
}

impl ManifestFiles {
    /// Indexes the manifest files among `entries`, the paths found under the
    /// manifest directory: those with the extension `toml`, each under its
    /// file stem.
    pub fn scan(entries: &Vec<String>) -> (r: ManifestFiles)
        ensures
            r@ == indexed(entries.deep_view(), MANIFEST_EXTENSION@),
    {
        ManifestFiles { files: index_by_stem(entries, MANIFEST_EXTENSION) }
    }

    /// The index itself, for reading.
    pub fn get_files(&self) -> (r: &Registry<String>)
        ensures
            r@ == self@,
    {
        &self.files
    }

    /// The path of the manifest file of the package `name`, if one was found.
    pub fn path_of(&self, name: &str) -> (r: Option<&String>)
        ensures
            match r {
                Some(path) => self@.contains_key(name@) && self@[name@] == path@,
                None => !self@.contains_key(name@),
            },
    {
        self.files.get(name)
    }
}

} // verus!
