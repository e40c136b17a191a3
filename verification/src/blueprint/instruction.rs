//! The parts of a blueprint.

use vstd::prelude::*;
use crate::version::Version;

verus! {

/// How the installed version of a package is found out: a command to run and
/// a pattern for the version in what it prints.
#[derive(Debug, Default)]
pub struct Versions {
    pub cmd: String,
    pub pattern: String,
    pub format: Option<String>,
}

/// Commands to run before and after a package is installed.
#[derive(Debug, Default)]
pub struct Install {
    pub before: Option<String>,
    pub after: Option<String>,
}

/// Commands to run before and after a package is uninstalled.
#[derive(Debug, Default)]
pub struct Uninstall {
    pub before: Option<String>,
    pub after: Option<String>,
}

/// A package: its name and the binaries that it brings, each a path relative
/// to the root of its download.
#[derive(Debug, Default)]
pub struct Package {
    pub name: String,
    pub binaries: Vec<String>,
}

/// The mathematical value of a [`Package`].
pub struct PackageView {
    pub name: Seq<char>,
    pub binaries: Seq<Seq<char>>,
}

impl View for Package {
    type V = PackageView;

    open spec fn view(&self) -> PackageView {
        PackageView { name: self.name@, binaries: self.binaries.deep_view() }
    }
}

/// Where a package is downloaded from, and the version found there.
#[derive(Debug, Default)]
pub struct Download {
    pub url: String,
    pub version: Option<Version>,
}

} // verus!
