//! Blueprints: the descriptions of packages, one file each, and the index of
//! the files.

use vstd::prelude::*;
pub use self::instruction::Package;
use self::instruction::{Download, Install, Uninstall, Versions};
use crate::path::{index_by_stem, indexed, join, joined};
use crate::registry::Registry;

pub mod instruction;

verus! {

/// The name of the blueprint directory, beside the bin directory.
pub const BLUEPRINT_PATH: &'static str = "blueprints";

/// The extension of a blueprint file.
pub const BLUEPRINT_EXTENSION: &'static str = "toml";

/// The blueprint of one package.
#[derive(Debug, Default)]
pub struct Blueprint {
    pub package: Package,
    pub download: Download,
    pub install: Option<Install>,
    pub uninstall: Option<Uninstall>,
    pub versions: Option<Versions>,
}

impl Blueprint {
    /// The blueprint with `name` as its package's name. A blueprint file is
    /// named after its package and does not repeat the name inside.
    pub fn named(self, name: &str) -> (r: Blueprint)
        ensures
            r.package.name@ == name@,
            r.package.binaries == self.package.binaries,
            r.download == self.download,
            r.install == self.install,
            r.uninstall == self.uninstall,
            r.versions == self.versions,
    {
        let mut blueprint = self;
        blueprint.package.name = name.to_owned();
        blueprint
    }
}

/// The blueprint files that were found, each under the name of its package.
#[derive(Debug)]
pub struct Blueprints {
    blueprints: Registry<String>,
}

impl View for Blueprints {
    type V = Map<Seq<char>, Seq<char>>;

    /// The path of the blueprint file of each package that has one.
    closed spec fn view(&self) -> Map<Seq<char>, Seq<char>> {
        self.blueprints@
    }
}

impl Blueprints {
    /// The directory that holds the blueprints, seen from the bin directory.
    pub fn directory() -> (r: String)
        ensures
            r@ == joined(".."@, BLUEPRINT_PATH@),
    {
        join("..", BLUEPRINT_PATH)
    }

    /// Indexes the blueprint files among `entries`, the paths found under the
    /// blueprint directory: those with the extension `toml`, each under its
    /// file stem.
    pub fn scan(entries: &Vec<String>) -> (r: Blueprints)
        ensures
            r@ == indexed(entries.deep_view(), BLUEPRINT_EXTENSION@),
    {
        Blueprints { blueprints: index_by_stem(entries, BLUEPRINT_EXTENSION) }
    }

    /// The index itself, for reading.
    pub fn get_blueprints(&self) -> (r: &Registry<String>)
        ensures
            r@ == self@,
    {
        &self.blueprints
    }

    /// The path of the blueprint file of the package `name`, if one was
    /// found.
    pub fn path_of(&self, name: &str) -> (r: Option<&String>)
        ensures
            match r {
                Some(path) => self@.contains_key(name@) && self@[name@] == path@,
                None => !self@.contains_key(name@),
            },
    {
        self.blueprints.get(name)
    }
}

} // verus!
