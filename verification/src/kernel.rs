//! The state of the package manager: which versions are known, where their
//! downloads lie, which version of each package is installed, and how the
//! program starts.

use vstd::prelude::*;
use crate::history::{
    arranged, descending, first_satisfying, lemma_arranged_descending, lemma_arranged_restores,
    lemma_descending_by_neighbours, lemma_first_satisfying, lemma_first_satisfying_found,
    lemma_first_satisfying_is_highest, lemma_rank, lemma_rank_found, lemma_recorded,
    lemma_with_version_descending, one_for_each, present, rank, recorded, versions_in,
    with_version,
};
use crate::manifest::Package;
use crate::path::{join, joined, parent, parent_of};
use crate::registry::{lemma_mapped_values, mapped, Registry};
use crate::result::{BoxedErr, BoxedResult};
use crate::system::{join_with, lists, Invocation, InvocationView, WinPath};
use crate::version::{satisfies, Version, VersionView};

verus! {

/// The name of the file that holds the saved state, under the root.
pub const CONFIG_FILE: &'static str = "just.toml";

/// The name of the manifest directory, under the root.
pub const MANIFEST_DIR: &'static str = "manifests";

/// The name of the download directory, under the root.
pub const DOWNLOAD_DIR: &'static str = "downloads";

/// Whether a package is installed according to `installed`, in a version
/// that meets `req` where one is given.
pub open spec fn installed_in(
    installed: Map<Seq<char>, VersionView>,
    name: Seq<char>,
    req: Option<semver::VersionReq>,
) -> bool {
    installed.contains_key(name) && match req {
        Some(r) => satisfies(r, installed[name]),
        None => true,
    }
}

/// The version that `installed` records for a package.
pub open spec fn version_in(installed: Map<Seq<char>, VersionView>, name: Seq<char>) -> Option<
    VersionView,
> {
    if installed.contains_key(name) {
        Some(installed[name])
    } else {
        None
    }
}

/// Which version of each package is installed: one at most.
#[derive(Debug)]
pub struct InstalledPackages {
    packages: Registry<Version>,
}

impl View for InstalledPackages {
    type V = Map<Seq<char>, VersionView>;

    /// The installed version of each installed package, by package name.
    closed spec fn view(&self) -> Map<Seq<char>, VersionView> {
        self.packages@
    }
}

impl Default for InstalledPackages {
    fn default() -> (r: Self)
        ensures
            r@ == Map::<Seq<char>, VersionView>::empty(),
    {
        InstalledPackages { packages: Registry::new() }
    }
}

impl InstalledPackages {
    /// The record that `entries` make: for each name the version of its last
    /// entry.
    pub fn from_entries(entries: Vec<(String, Version)>) -> (r: Self)
        ensures
            r@ == mapped(entries.deep_view()),
    {
        InstalledPackages { packages: Registry::from_entries(entries) }
    }

    /// The record itself, for reading.
    pub fn get_packages(&self) -> (r: &Registry<Version>)
        ensures
            r@ == self@,
    {
        &self.packages
    }

    /// Forgets the installation of `pkg_name` and returns the version that
    /// was installed.
    pub fn remove_package(&mut self, pkg_name: &str) -> (r: Option<Version>)
        ensures
            final(self)@ == old(self)@.remove(pkg_name@),
            r.deep_view() == version_in(old(self)@, pkg_name@),
    {
        self.packages.remove(pkg_name)
    }

    /// Records `version` as the installed version of `package`, in place of
    /// any other.
    pub fn add_package(&mut self, package: &Package, version: &Version)
        ensures
            final(self)@ == old(self)@.insert(package@.name, version@),
    {
        self.packages.insert(package.name.as_str(), version.clone());
    }

    /// Whether `pkg_name` is installed, in a version that meets `req` where
    /// one is given.
    pub fn is_installed(&self, pkg_name: &str, req: Option<semver::VersionReq>) -> (r: bool)
        ensures
            r == installed_in(self@, pkg_name@, req),
    {
        match self.packages.get(pkg_name) {
            Some(version) => match req {
                Some(req) => version.satisfies(&req),
                None => true,
            },
            None => false,
        }
    }

    /// The installed version of `pkg_name`.
    pub fn installed_version(&self, pkg_name: &str) -> (r: Option<&Version>)
        ensures
            r.deep_view() == version_in(self@, pkg_name@),
    {
        self.packages.get(pkg_name)
    }
}

/// Installing a version of a package and then uninstalling the package gives
/// that version back and leaves the package not installed.
pub proof fn lemma_install_then_uninstall(
    installed: Map<Seq<char>, VersionView>,
    name: Seq<char>,
    version: VersionView,
)
    ensures
        version_in(installed.insert(name, version), name) == Some(version),
        !installed_in(installed.insert(name, version).remove(name), name, None),
{
}

/// A named directory of the user's.
#[derive(Debug, Default)]
pub struct Workspace {
    pub path: String,
    pub active: bool,
}

/// The mathematical value of a [`Workspace`].
pub struct WorkspaceView {
    pub path: Seq<char>,
    pub active: bool,
}

impl DeepView for Workspace {
    type V = WorkspaceView;

    open spec fn deep_view(&self) -> WorkspaceView {
        WorkspaceView { path: self.path@, active: self.active }
    }
}

/// The workspaces, by name.
#[derive(Debug)]
pub struct AvailableWorkspaces {
    workspaces: Registry<Workspace>,
}

impl View for AvailableWorkspaces {
    type V = Map<Seq<char>, WorkspaceView>;

    closed spec fn view(&self) -> Map<Seq<char>, WorkspaceView> {
        self.workspaces@
    }
}

impl Default for AvailableWorkspaces {
    fn default() -> (r: Self)
        ensures
            r@ == Map::<Seq<char>, WorkspaceView>::empty(),
    {
        AvailableWorkspaces { workspaces: Registry::new() }
    }
}

impl AvailableWorkspaces {
    /// The workspaces that `entries` make: for each name the workspace of its
    /// last entry.
    pub fn from_entries(entries: Vec<(String, Workspace)>) -> (r: Self)
        ensures
            r@ == mapped(entries.deep_view()),
    {
        AvailableWorkspaces { workspaces: Registry::from_entries(entries) }
    }

    /// Records the workspace `name` at `path`, not active, in place of any
    /// workspace of that name.
    pub fn add_workspace(&mut self, name: &str, path: &str)
        ensures
            final(self)@ == old(self)@.insert(name@, WorkspaceView { path: path@, active: false }),
    {
        let ws = Workspace { path: path.to_owned(), active: false };
        self.workspaces.insert(name, ws);
    }

    /// The record itself, for reading.
    pub fn get_workspaces(&self) -> (r: &Registry<Workspace>)
        ensures
            r@ == self@,
    {
        &self.workspaces
    }
}

/// The versions that `known` holds for a package: none for a package that
/// it does not know.
pub open spec fn history_of(known: Map<Seq<char>, Seq<VersionView>>, name: Seq<char>) -> Seq<
    VersionView,
> {
    if known.contains_key(name) {
        known[name]
    } else {
        Seq::empty()
    }
}

/// The list of versions that `known` holds for a package, if it knows the
/// package.
pub open spec fn versions_of(known: Map<Seq<char>, Seq<VersionView>>, name: Seq<char>) -> Option<
    Seq<VersionView>,
> {
    if known.contains_key(name) {
        Some(known[name])
    } else {
        None
    }
}

/// The first version of the list that `known` holds for a package.
pub open spec fn latest_of(known: Map<Seq<char>, Seq<VersionView>>, name: Seq<char>) -> Option<
    VersionView,
> {
    if known.contains_key(name) && known[name].len() > 0 {
        Some(known[name][0])
    } else {
        None
    }
}

/// The version that a requirement selects from a descending list: the first
/// that meets it, or the first of all where no requirement is given.
pub open spec fn chosen(history: Seq<VersionView>, req: Option<semver::VersionReq>) -> Option<
    VersionView,
> {
    let at = match req {
        Some(r) => first_satisfying(history, r),
        None => 0,
    };
    if at < history.len() {
        Some(history[at])
    } else {
        None
    }
}

/// The requirement behind a reference, if there is one.
pub open spec fn owned(req: Option<&semver::VersionReq>) -> Option<semver::VersionReq> {
    match req {
        Some(r) => Some(*r),
        None => None,
    }
}

/// Whether `list` is in descending order of precedence.
pub fn is_descending(list: &Vec<Version>) -> (r: bool)
    ensures
        r == descending(list.deep_view()),
{
    let ghost versions = list.deep_view();
    let mut i: usize = 1;
    while i < list.len()
        invariant
            1 <= i,
            versions == list.deep_view(),
            forall|k: int| 0 < k < i && k < versions.len() ==> (#[trigger] versions[k]).precedes(
                versions[k - 1],
            ),
        decreases list@.len() - i,
    {
        assert(versions[i as int] == list@[i as int]@);
        assert(versions[i - 1] == list@[i - 1]@);
        if !list[i].precedes(&list[i - 1]) {
            return false;
        }
        i += 1;
    }
    proof {
        lemma_descending_by_neighbours(versions);
    }
    true
}

/// The place of `version` in `list`.
fn rank_of(list: &Vec<Version>, version: &Version) -> (r: usize)
    ensures
        r == rank(list.deep_view(), version@),
{
    let mut i: usize = 0;
    while i < list.len()
        invariant
            i <= list@.len(),
            forall|j: int| 0 <= j < i ==> version@.precedes(#[trigger] list.deep_view()[j]),
        decreases list@.len() - i,
    {
        if !version.precedes(&list[i]) {
            proof {
                lemma_rank_found(list.deep_view(), version@, i as int);
            }
            return i;
        }
        i += 1;
    }
    proof {
        lemma_rank_found(list.deep_view(), version@, i as int);
    }
    i
}

/// Every version that was ever downloaded, by package, each list in
/// descending order of precedence.
#[derive(Debug)]
pub struct AvailableVersions {
    versions: Registry<Vec<Version>>,
}

impl View for AvailableVersions {
    type V = Map<Seq<char>, Seq<VersionView>>;

    /// The versions of each known package, highest first.
    closed spec fn view(&self) -> Map<Seq<char>, Seq<VersionView>> {
        self.versions@
    }
}

impl Default for AvailableVersions {
    fn default() -> (r: Self)
        ensures
            r@ == Map::<Seq<char>, Seq<VersionView>>::empty(),
    {
        AvailableVersions { versions: Registry::new() }
    }
}

impl AvailableVersions {
    #[verifier::type_invariant]
    closed spec fn ordered(&self) -> bool {
        forall|name: Seq<char>| #[trigger]
            self.versions@.contains_key(name) ==> descending(self.versions@[name])
    }

    /// The versions that `entries` make, for each name the list of its last
    /// entry, provided that every list is in descending order of precedence:
    /// other entries are refused.
    pub fn from_entries(entries: Vec<(String, Vec<Version>)>) -> (r: Option<Self>)
        ensures
            r is Some <==> forall|i: int|
                0 <= i < entries@.len() ==> descending((#[trigger] entries.deep_view()[i]).1),
            r matches Some(versions) ==> versions@ == mapped(entries.deep_view()),
    {
        let ghost all = entries.deep_view();
        let mut i: usize = 0;
        while i < entries.len()
            invariant
                i <= entries@.len(),
                all == entries.deep_view(),
                forall|k: int| 0 <= k < i ==> descending((#[trigger] all[k]).1),
            decreases entries@.len() - i,
        {
            assert(all[i as int].1 == entries@[i as int].1.deep_view());
            if !is_descending(&entries[i].1) {
                return None;
            }
            i += 1;
        }
        let versions = Registry::from_entries(entries);
        proof {
            lemma_mapped_values(all);
        }
        Some(AvailableVersions { versions })
    }

    /// Adds `version` to the versions of `package`, at its place in the
    /// order, unless a version of that precedence is among them.
    pub fn add_version(&mut self, package: &Package, version: &Version)
        ensures
            final(self)@ == old(self)@.insert(
                package@.name,
                with_version(history_of(old(self)@, package@.name), version@),
            ),
    {
        proof {
            use_type_invariant(&*self);
        }
        let name = package.name.as_str();
        let mut all: Registry<Vec<Version>> = Registry::new();
        core::mem::swap(&mut self.versions, &mut all);
        let ghost before = all@;
        let mut list = match all.remove(name) {
            Some(list) => list,
            None => Vec::new(),
        };
        let ghost history = list.deep_view();
        assert(history =~= history_of(before, name@));
        let at = rank_of(&list, version);
        proof {
            lemma_rank(history, version@);
        }
        if !(at < list.len() && list[at].same_precedence(version)) {
            list.insert(at, version.clone());
            assert(list.deep_view() =~= history.insert(at as int, version@));
        }
        assert(list.deep_view() == with_version(history, version@));
        proof {
            lemma_with_version_descending(history, version@);
        }
        all.insert(name, list);
        assert(all@ =~= before.insert(name@, with_version(history, version@)));
        core::mem::swap(&mut self.versions, &mut all);
    }

    /// The versions of `package`, highest first: a descending list, so that
    /// no two of them have the same precedence.
    pub fn get_all_versions_of(&self, package: &Package) -> (r: Option<&Vec<Version>>)
        ensures
            r.deep_view() == versions_of(self@, package@.name),
            r matches Some(list) ==> descending(list.deep_view()),
    {
        proof {
            use_type_invariant(self);
        }
        self.versions.get(package.name.as_str())
    }

    /// The highest version of `package`: every other version of the package
    /// has lower precedence.
    pub fn get_latest_versions_of(&self, package: &Package) -> (r: Option<&Version>)
        ensures
            r.deep_view() == latest_of(self@, package@.name),
            r matches Some(top) ==> forall|j: int|
                0 < j < self@[package@.name].len() ==> (#[trigger] self@[package@.name][j]).precedes(
                    top@,
                ),
    {
        match self.get_all_versions_of(package) {
            Some(versions) => {
                if versions.len() > 0 {
                    assert(versions.deep_view()[0] == versions@[0]@);
                    Some(&versions[0])
                } else {
                    None
                }
            },
            None => None,
        }
    }

    /// The version of `package` that `req` selects: the highest that meets
    /// it, or the highest of all where no requirement is given.
    pub fn select(&self, package: &Package, req: Option<&semver::VersionReq>) -> (r: Option<
        &Version,
    >)
        ensures
            r.deep_view() == chosen(history_of(self@, package@.name), owned(req)),
            r is Some ==> descending(history_of(self@, package@.name)),
    {
        proof {
            use_type_invariant(self);
        }
        let want = match req {
            Some(want) => want,
            None => {
                return self.get_latest_versions_of(package);
            },
        };
        match self.get_all_versions_of(package) {
            Some(list) => {
                let ghost versions = list.deep_view();
                let mut i: usize = 0;
                while i < list.len()
                    invariant
                        i <= list@.len(),
                        versions == list.deep_view(),
                        versions == history_of(self@, package@.name),
                        descending(versions),
                        req == Some(want),
                        forall|j: int| 0 <= j < i ==> !satisfies(*want, #[trigger] versions[j]),
                    decreases list@.len() - i,
                {
                    assert(versions[i as int] == list@[i as int]@);
                    if list[i].satisfies(want) {
                        proof {
                            lemma_first_satisfying_found(versions, *want, i as int);
                        }
                        return Some(&list[i]);
                    }
                    i += 1;
                }
                proof {
                    lemma_first_satisfying_found(versions, *want, i as int);
                }
                None
            },
            None => None,
        }
    }

    /// The record itself, for reading. Each of its lists is descending.
    pub fn get_versions(&self) -> (r: &Registry<Vec<Version>>)
        ensures
            r@ == self@,
            forall|name: Seq<char>| #[trigger] r@.contains_key(name) ==> descending(r@[name]),
    {
        proof {
            use_type_invariant(self);
        }
        &self.versions
    }
}

/// A download to register: a version of a package and the directory,
/// relative to the download directory, that holds it.
pub struct LocalPackage<'a> {
    pub path: &'a str,
    pub version: &'a Version,
    pub package: &'a Package,
}

/// The downloads that `known` holds for a package: none for a package that
/// it does not know.
pub open spec fn downloads_of(
    known: Map<Seq<char>, Seq<(VersionView, Seq<char>)>>,
    name: Seq<char>,
) -> Seq<(VersionView, Seq<char>)> {
    if known.contains_key(name) {
        known[name]
    } else {
        Seq::empty()
    }
}

/// The download of a package that a requirement selects: the first in the
/// list whose version meets it.
pub open spec fn download_for(
    known: Map<Seq<char>, Seq<(VersionView, Seq<char>)>>,
    name: Seq<char>,
    req: semver::VersionReq,
) -> Option<(VersionView, Seq<char>)> {
    let entries = downloads_of(known, name);
    let at = first_satisfying(versions_in(entries), req);
    if at < entries.len() {
        Some(entries[at])
    } else {
        None
    }
}

/// The path recorded for a version of a package.
pub open spec fn path_in(
    known: Map<Seq<char>, Seq<(VersionView, Seq<char>)>>,
    name: Seq<char>,
    version: VersionView,
) -> Option<Seq<char>> {
    let entries = downloads_of(known, name);
    if present(versions_in(entries), version) {
        Some(entries[rank(versions_in(entries), version)].1)
    } else {
        None
    }
}

/// The place of `version` among the downloads `list`.
fn place_of(list: &Vec<(Version, String)>, version: &Version) -> (r: usize)
    ensures
        r == rank(versions_in(list.deep_view()), version@),
{
    let ghost versions = versions_in(list.deep_view());
    let mut i: usize = 0;
    while i < list.len()
        invariant
            i <= list@.len(),
            versions == versions_in(list.deep_view()),
            forall|j: int| 0 <= j < i ==> version@.precedes(#[trigger] versions[j]),
        decreases list@.len() - i,
    {
        assert(versions[i as int] == list@[i as int].0@);
        if !version.precedes(&list[i].0) {
            proof {
                lemma_rank_found(versions, version@, i as int);
            }
            return i;
        }
        i += 1;
    }
    proof {
        lemma_rank_found(versions, version@, i as int);
    }
    i
}

/// Records `path` as the place of `version` in `list`.
fn record_in(list: &mut Vec<(Version, String)>, version: &Version, path: &str)
    ensures
        final(list).deep_view() == recorded(old(list).deep_view(), version@, path@),
{
    let ghost entries = list.deep_view();
    let at = place_of(list, version);
    proof {
        lemma_rank(versions_in(entries), version@);
    }
    if at < list.len() && list[at].0.same_precedence(version) {
        let kept = list[at].0.clone();
        list.set(at, (kept, path.to_owned()));
        assert(list.deep_view() =~= entries.update(at as int, (entries[at as int].0, path@)));
    } else {
        list.insert(at, (version.clone(), path.to_owned()));
        assert(list.deep_view() =~= entries.insert(at as int, (version@, path@)));
    }
}

/// The list that recording `entries` one after the other makes.
fn arrange(entries: &Vec<(Version, String)>) -> (r: Vec<(Version, String)>)
    ensures
        r.deep_view() == arranged(entries.deep_view()),
{
    let mut out: Vec<(Version, String)> = Vec::new();
    let mut i: usize = 0;
    while i < entries.len()
        invariant
            i <= entries@.len(),
            out.deep_view() == arranged(entries.deep_view().take(i as int)),
        decreases entries@.len() - i,
    {
        proof {
            let upto = entries.deep_view().take(i + 1);
            assert(upto.drop_last() =~= entries.deep_view().take(i as int));
            assert(upto.last() == (entries@[i as int].0@, entries@[i as int].1@));
        }
        record_in(&mut out, &entries[i].0, entries[i].1.as_str());
        i += 1;
    }
    assert(entries.deep_view().take(entries@.len() as int) =~= entries.deep_view());
    out
}

/// The entries with each list of downloads put in order: recorded one
/// download after the other.
pub open spec fn arranged_each(
    entries: Seq<(Seq<char>, Seq<(VersionView, Seq<char>)>)>,
) -> Seq<(Seq<char>, Seq<(VersionView, Seq<char>)>)> {
    Seq::new(entries.len(), |i: int| (entries[i].0, arranged(entries[i].1)))
}

/// Where each downloaded version of each package lies: by package a list of
/// versions with their paths, in descending order of precedence.
#[derive(Debug)]
pub struct AvailableDownloads {
    downloads: Registry<Vec<(Version, String)>>,
}

impl View for AvailableDownloads {
    type V = Map<Seq<char>, Seq<(VersionView, Seq<char>)>>;

    /// The downloads of each known package, highest version first.
    closed spec fn view(&self) -> Map<Seq<char>, Seq<(VersionView, Seq<char>)>> {
        self.downloads@
    }
}

impl Default for AvailableDownloads {
    fn default() -> (r: Self)
        ensures
            r@ == Map::<Seq<char>, Seq<(VersionView, Seq<char>)>>::empty(),
    {
        AvailableDownloads { downloads: Registry::new() }
    }
}

impl AvailableDownloads {
    #[verifier::type_invariant]
    closed spec fn ordered(&self) -> bool {
        forall|name: Seq<char>| #[trigger]
            self.downloads@.contains_key(name) ==> descending(versions_in(self.downloads@[name]))
    }

    /// The record itself, for reading. Each of its lists is descending.
    pub fn get_downloads(&self) -> (r: &Registry<Vec<(Version, String)>>)
        ensures
            r@ == self@,
            forall|name: Seq<char>| #[trigger]
                r@.contains_key(name) ==> descending(versions_in(r@[name])),
    {
        proof {
            use_type_invariant(self);
        }
        &self.downloads
    }

    /// The downloads that `entries` make: for each name the downloads of its
    /// last entry, recorded one after the other, so that they come to stand
    /// in descending order whatever their order in the entry.
    pub fn from_entries(entries: Vec<(String, Vec<(Version, String)>)>) -> (r: Self)
        ensures
            r@ == mapped(arranged_each(entries.deep_view())),
    {
        let ghost all = entries.deep_view();
        let mut ordered: Vec<(String, Vec<(Version, String)>)> = Vec::new();
        let mut i: usize = 0;
        while i < entries.len()
            invariant
                i <= entries@.len(),
                all == entries.deep_view(),
                ordered.deep_view() == arranged_each(all).take(i as int),
            decreases entries@.len() - i,
        {
            let ghost before = ordered.deep_view();
            let list = arrange(&entries[i].1);
            assert(all[i as int] == (entries@[i as int].0@, entries@[i as int].1.deep_view()));
            ordered.push((entries[i].0.clone(), list));
            assert(ordered.deep_view() =~= before.push(arranged_each(all)[i as int]));
            assert(ordered.deep_view() =~= arranged_each(all).take(i + 1));
            i += 1;
        }
        assert(arranged_each(all).take(all.len() as int) =~= arranged_each(all));
        let downloads = Registry::from_entries(ordered);
        proof {
            lemma_mapped_values(arranged_each(all));
            assert forall|name: Seq<char>| #[trigger] downloads@.contains_key(name) implies descending(
                versions_in(downloads@[name]),
            ) by {
                let k = choose|k: int|
                    0 <= k < arranged_each(all).len() && #[trigger] arranged_each(all)[k] == (
                        name,
                        downloads@[name],
                    );
                lemma_arranged_descending(all[k].1);
            }
        }
        AvailableDownloads { downloads }
    }

    /// Records `path` as the place of `version` of the package `name`: in
    /// place of the path of a version of that precedence, or as a new entry.
    /// This is the half of registering a download that concerns the paths;
    /// [`Kernel::record_download`] does both halves.
    pub(crate) fn record(&mut self, name: &str, version: &Version, path: &str)
        ensures
            final(self)@ == old(self)@.insert(
                name@,
                recorded(downloads_of(old(self)@, name@), version@, path@),
            ),
    {
        proof {
            use_type_invariant(&*self);
        }
        let mut all: Registry<Vec<(Version, String)>> = Registry::new();
        core::mem::swap(&mut self.downloads, &mut all);
        let ghost before = all@;
        let mut list = match all.remove(name) {
            Some(list) => list,
            None => Vec::new(),
        };
        let ghost entries = list.deep_view();
        assert(entries =~= downloads_of(before, name@));
        proof {
            lemma_recorded(entries, version@, path@);
        }
        record_in(&mut list, version, path);
        all.insert(name, list);
        assert(all@ =~= before.insert(name@, recorded(entries, version@, path@)));
        core::mem::swap(&mut self.downloads, &mut all);
    }

    /// The download of the package `name` with the highest version that meets
    /// `req`: the first such in the descending list, so that every other
    /// download whose version meets `req` has a version of lower precedence.
    pub fn get_download(&self, name: &str, req: &semver::VersionReq) -> (r: Option<
        (&Version, &String),
    >)
        ensures
            r.deep_view() == download_for(self@, name@, *req),
            r matches Some(hit) ==> forall|j: int|
                0 <= j < downloads_of(self@, name@).len() && satisfies(
                    *req,
                    (#[trigger] downloads_of(self@, name@)[j]).0,
                ) ==> downloads_of(self@, name@)[j] == hit.deep_view() || downloads_of(
                    self@,
                    name@,
                )[j].0.precedes(hit.0@),
    {
        proof {
            use_type_invariant(self);
        }
        match self.downloads.get(name) {
            Some(list) => {
                let ghost versions = versions_in(list.deep_view());
                let mut i: usize = 0;
                while i < list.len()
                    invariant
                        i <= list@.len(),
                        versions == versions_in(list.deep_view()),
                        descending(versions),
                        list.deep_view() == downloads_of(self@, name@),
                        forall|j: int| 0 <= j < i ==> !satisfies(*req, #[trigger] versions[j]),
                    decreases list@.len() - i,
                {
                    assert(versions[i as int] == list@[i as int].0@);
                    if list[i].0.satisfies(req) {
                        proof {
                            lemma_first_satisfying_found(versions, *req, i as int);
                            lemma_first_satisfying_is_highest(versions, *req);
                            assert(list.deep_view()[i as int] == (
                                list@[i as int].0@,
                                list@[i as int].1@,
                            ));
                            assert forall|j: int|
                                0 <= j < list@.len() && satisfies(
                                    *req,
                                    (#[trigger] list.deep_view()[j]).0,
                                ) implies list.deep_view()[j] == list.deep_view()[i as int]
                                || list.deep_view()[j].0.precedes(list@[i as int].0@) by {
                                assert(versions[j] == list.deep_view()[j].0);
                            }
                        }
                        return Some((&list[i].0, &list[i].1));
                    }
                    i += 1;
                }
                proof {
                    lemma_first_satisfying_found(versions, *req, i as int);
                }
                None
            },
            None => None,
        }
    }

    /// The path recorded for `version` of the package `name`.
    pub fn path_of(&self, name: &str, version: &Version) -> (r: Option<&String>)
        ensures
            r.deep_view() == path_in(self@, name@, version@),
    {
        match self.downloads.get(name) {
            Some(list) => {
                let at = place_of(list, version);
                if at < list.len() && list[at].0.same_precedence(version) {
                    assert(versions_in(list.deep_view())[at as int] == list@[at as int].0@);
                    assert(list.deep_view()[at as int].1 == list@[at as int].1@);
                    Some(&list[at].1)
                } else {
                    proof {
                        if at < list.len() {
                            assert(versions_in(list.deep_view())[at as int] == list@[at as int].0@);
                        }
                    }
                    None
                }
            },
            None => {
                assert(versions_in(downloads_of(self@, name@)).len() == 0);
                None
            },
        }
    }
}

/// The directories that the program works in.
#[derive(Debug)]
pub struct Folder {
    pub root_path: String,
    pub bin_path: String,
    pub download_path: String,
    pub manifest_path: String,
}

/// The mathematical value of a [`Folder`].
pub struct FolderView {
    pub root_path: Seq<char>,
    pub bin_path: Seq<char>,
    pub download_path: Seq<char>,
    pub manifest_path: Seq<char>,
}

impl View for Folder {
    type V = FolderView;

    open spec fn view(&self) -> FolderView {
        FolderView {
            root_path: self.root_path@,
            bin_path: self.bin_path@,
            download_path: self.download_path@,
            manifest_path: self.manifest_path@,
        }
    }
}

/// The layout around an executable: the bin directory holds the executable,
/// the root holds the bin directory, and the manifest and download
/// directories lie under the root. There is none where the executable or
/// its directory has no parent.
pub open spec fn located(exe_path: Seq<char>) -> Option<FolderView> {
    match parent_of(exe_path) {
        Some(bin) => match parent_of(bin) {
            Some(root) => Some(
                FolderView {
                    root_path: root,
                    bin_path: bin,
                    download_path: joined(root, DOWNLOAD_DIR@),
                    manifest_path: joined(root, MANIFEST_DIR@),
                },
            ),
            None => None,
        },
        None => None,
    }
}

impl Clone for Folder {
    fn clone(&self) -> (r: Self)
        ensures
            r@ == self@,
    {
        Folder {
            root_path: self.root_path.clone(),
            bin_path: self.bin_path.clone(),
            download_path: self.download_path.clone(),
            manifest_path: self.manifest_path.clone(),
        }
    }
}

impl Folder {
    /// The layout around the executable at `exe_path`.
    pub fn locate(exe_path: &str) -> (r: Option<Folder>)
        ensures
            match r {
                Some(folder) => located(exe_path@) == Some(folder@),
                None => located(exe_path@) is None,
            },
    {
        match parent(exe_path) {
            Some(bin) => match parent(bin.as_str()) {
                Some(root) => {
                    let download_path = join(root.as_str(), DOWNLOAD_DIR);
                    let manifest_path = join(root.as_str(), MANIFEST_DIR);
                    Some(Folder { root_path: root, bin_path: bin, download_path, manifest_path })
                },
                None => None,
            },
            None => None,
        }
    }
}

/// What the start of the program has to do once the directories were looked
/// at.
#[derive(Debug)]
pub struct Startup {
    /// The directories to work in.
    pub folder: Folder,
    /// Whether the download directory has to be made.
    pub create_download_dir: bool,
    /// The command that stores the extended search path, where the bin
    /// directory was not on it.
    pub persist: Option<Invocation>,
}

/// The command that stores a search path: what [`WinPath::save`] returns.
pub open spec fn persisting(paths: Seq<Seq<char>>) -> InvocationView {
    InvocationView {
        exe: "setx"@,
        args: seq!["PATH"@, join_with(paths, ";"@)],
        silent: true,
        read: false,
    }
}

/// Decides the start of the program. `bin_exists`, `manifest_exists` and
/// `download_exists` say which directories of `folder` are there; `search`
/// is the search path that the program inherited.
///
/// Without the bin directory or the manifest directory the start fails. Else
/// the download directory is to be made if it is missing, and the bin
/// directory is put on the search path, which is then to be stored, only if
/// it was not on it.
pub fn init(
    folder: Folder,
    bin_exists: bool,
    manifest_exists: bool,
    download_exists: bool,
    search: &mut WinPath,
) -> (r: BoxedResult<Startup>)
    ensures
        r is Ok <==> bin_exists && manifest_exists,
        r matches Err(e) ==> final(search)@ == old(search)@ && e@ == (if !bin_exists {
            "Invalid bin path: "@ + folder@.bin_path + " does not exist"@
        } else {
            "Invalid manifest path: "@ + folder@.manifest_path + " does not exist"@
        }),
        r matches Ok(start) ==> {
            &&& start.folder@ == folder@
            &&& start.create_download_dir == !download_exists
            &&& start.persist is None <==> lists(old(search)@, folder@.bin_path)
            &&& start.persist is None ==> final(search)@ == old(search)@
            &&& start.persist matches Some(command) ==> final(search)@ == old(search)@.push(
                folder@.bin_path,
            ) && command@ == persisting(final(search)@)
        },
{
    if !bin_exists {
        let mut msg = "Invalid bin path: ".to_owned();
        msg.append(folder.bin_path.as_str());
        msg.append(" does not exist");
        return BoxedErr::with(msg.as_str());
    }
    if !manifest_exists {
        let mut msg = "Invalid manifest path: ".to_owned();
        msg.append(folder.manifest_path.as_str());
        msg.append(" does not exist");
        return BoxedErr::with(msg.as_str());
    }
    let persist = if search.contains(folder.bin_path.as_str()) {
        None
    } else {
        search.append(folder.bin_path.as_str());
        Some(search.save())
    };
    Ok(Startup { folder, create_download_dir: !download_exists, persist })
}

/// Once the bin directory was put on the search path it is on it: a second
/// start stores nothing.
pub proof fn lemma_bin_path_stays(paths: Seq<Seq<char>>, bin_path: Seq<char>)
    ensures
        lists(paths.push(bin_path), bin_path),
{
    let extended = paths.push(bin_path);
    assert(crate::path::same_path(extended[paths.len() as int], bin_path));
}

/// The saved state as a whole.
#[derive(Debug)]
pub struct Kernel {
    pub path: Folder,
    pub packages: InstalledPackages,
    pub downloads: AvailableDownloads,
    pub workspaces: AvailableWorkspaces,
    pub versions: AvailableVersions,
}

/// The version of a package that a requirement selects from the known
/// versions, with the path recorded for it: nothing where no version is
/// selected or no path is recorded for the selected one.
pub open spec fn resolved(
    versions: Map<Seq<char>, Seq<VersionView>>,
    downloads: Map<Seq<char>, Seq<(VersionView, Seq<char>)>>,
    name: Seq<char>,
    req: Option<semver::VersionReq>,
) -> Option<(VersionView, Seq<char>)> {
    match chosen(history_of(versions, name), req) {
        Some(version) => match path_in(downloads, name, version) {
            Some(path) => Some((version, path)),
            None => None,
        },
        None => None,
    }
}

/// Whether the downloads of each package hold exactly the versions that are
/// known of it, in the same order.
pub open spec fn consistent(
    versions: Map<Seq<char>, Seq<VersionView>>,
    downloads: Map<Seq<char>, Seq<(VersionView, Seq<char>)>>,
) -> bool {
    forall|name: Seq<char>|
        versions_in(#[trigger] downloads_of(downloads, name)) == history_of(versions, name)
}

impl Kernel {
    /// The state in which nothing is known and nothing is installed.
    pub fn new(folder: Folder) -> (r: Kernel)
        ensures
            r.path@ == folder@,
            r.packages@ == Map::<Seq<char>, VersionView>::empty(),
            r.downloads@ == Map::<Seq<char>, Seq<(VersionView, Seq<char>)>>::empty(),
            r.workspaces@ == Map::<Seq<char>, WorkspaceView>::empty(),
            r.versions@ == Map::<Seq<char>, Seq<VersionView>>::empty(),
            consistent(r.versions@, r.downloads@),
    {
        let r = Kernel {
            path: folder,
            packages: InstalledPackages::default(),
            downloads: AvailableDownloads::default(),
            workspaces: AvailableWorkspaces::default(),
            versions: AvailableVersions::default(),
        };
        assert forall|name: Seq<char>|
            versions_in(#[trigger] downloads_of(r.downloads@, name)) == history_of(
                r.versions@,
                name,
            ) by {
            assert(versions_in(downloads_of(r.downloads@, name)) =~= history_of(r.versions@, name));
        }
        r
    }

    /// The path of the file that holds the saved state.
    pub fn config_path(&self) -> (r: String)
        ensures
            r@ == joined(self.path@.root_path, CONFIG_FILE@),
    {
        join(self.path.root_path.as_str(), CONFIG_FILE)
    }

    /// Registers the download of `version` of `package` at `path`: records
    /// the path for the version and adds the version to the versions of the
    /// package.
    pub fn record_download(&mut self, package: &Package, version: &Version, path: &str)
        ensures
            final(self).downloads@ == old(self).downloads@.insert(
                package@.name,
                recorded(downloads_of(old(self).downloads@, package@.name), version@, path@),
            ),
            final(self).versions@ == old(self).versions@.insert(
                package@.name,
                with_version(history_of(old(self).versions@, package@.name), version@),
            ),
            final(self).path == old(self).path,
            final(self).packages == old(self).packages,
            final(self).workspaces == old(self).workspaces,
            consistent(old(self).versions@, old(self).downloads@) ==> consistent(
                final(self).versions@,
                final(self).downloads@,
            ),
    {
        proof {
            use_type_invariant(&self.downloads);
            if self.downloads@.contains_key(package@.name) {
                assert(descending(versions_in(self.downloads@[package@.name])));
            } else {
                assert(versions_in(downloads_of(self.downloads@, package@.name)).len() == 0);
            }
            lemma_recorded(downloads_of(self.downloads@, package@.name), version@, path@);
        }
        self.downloads.record(package.name.as_str(), version, path);
        self.versions.add_version(package, version);
        proof {
            if consistent(old(self).versions@, old(self).downloads@) {
                assert forall|name: Seq<char>|
                    versions_in(#[trigger] downloads_of(self.downloads@, name)) == history_of(
                        self.versions@,
                        name,
                    ) by {
                    assert(versions_in(downloads_of(old(self).downloads@, name)) == history_of(
                        old(self).versions@,
                        name,
                    ));
                }
            }
        }
    }

    /// Registers the download `local`, which lies under `download_path`: the
    /// root of the download, `download_path` extended by the directory of
    /// `local`, is recorded for its version, whatever binaries the package
    /// declares, and the version is added to the versions of the package.
    pub fn add_download(&mut self, local: &LocalPackage, download_path: &str)
        ensures
            final(self).downloads@ == old(self).downloads@.insert(
                local.package@.name,
                recorded(
                    downloads_of(old(self).downloads@, local.package@.name),
                    local.version@,
                    joined(download_path@, local.path@),
                ),
            ),
            final(self).versions@ == old(self).versions@.insert(
                local.package@.name,
                with_version(history_of(old(self).versions@, local.package@.name), local.version@),
            ),
            final(self).path == old(self).path,
            final(self).packages == old(self).packages,
            final(self).workspaces == old(self).workspaces,
            consistent(old(self).versions@, old(self).downloads@) ==> consistent(
                final(self).versions@,
                final(self).downloads@,
            ),
    {
        let root = join(download_path, local.path);
        self.record_download(local.package, local.version, root.as_str());
    }

    /// The version of `package` to use and the path of its download: the
    /// highest known version that meets `req`, or the highest of all where no
    /// requirement is given.
    pub fn resolve(&self, package: &Package, req: Option<&semver::VersionReq>) -> (r: Option<
        (Version, String),
    >)
        ensures
            r.deep_view() == resolved(
                self.versions@,
                self.downloads@,
                package@.name,
                owned(req),
            ),
            req is None ==> (r matches Some(hit) ==> Some(hit.0@) == latest_of(
                self.versions@,
                package@.name,
            )),
            (req, r) matches (Some(want), Some(hit)) ==> satisfies(*want, hit.0@)
                && forall|j: int|
                0 <= j < history_of(self.versions@, package@.name).len() && satisfies(
                    *want,
                    #[trigger] history_of(self.versions@, package@.name)[j],
                ) ==> history_of(self.versions@, package@.name)[j] == hit.0@ || history_of(
                    self.versions@,
                    package@.name,
                )[j].precedes(hit.0@),
    {
        match self.versions.select(package, req) {
            Some(version) => {
                proof {
                    if let Some(want) = req {
                        let history = history_of(self.versions@, package@.name);
                        lemma_first_satisfying(history, *want);
                        lemma_first_satisfying_is_highest(history, *want);
                    }
                }
                match self.downloads.path_of(package.name.as_str(), version) {
                    Some(path) => Some((version.clone(), path.clone())),
                    None => None,
                }
            },
            None => None,
        }
    }
}

/// Without a requirement, resolution gives the latest version of the
/// package, whenever the downloads hold the versions that are known.
pub proof fn lemma_resolve_latest(
    versions: Map<Seq<char>, Seq<VersionView>>,
    downloads: Map<Seq<char>, Seq<(VersionView, Seq<char>)>>,
    name: Seq<char>,
)
    requires
        consistent(versions, downloads),
    ensures
        match resolved(versions, downloads, name, None) {
            Some(hit) => latest_of(versions, name) == Some(hit.0),
            None => latest_of(versions, name) is None,
        },
{
    if versions.contains_key(name) && versions[name].len() > 0 {
        let history = versions[name];
        let top = history[0];
        crate::version::lemma_precedence_trichotomy(top, top);
        assert(rank(history, top) == 0);
        assert(versions_in(downloads[name]) == history);
    }
}

/// With a requirement, resolution gives a version that meets it and that no
/// other known version that meets it outranks.
pub proof fn lemma_resolve_highest(
    versions: Map<Seq<char>, Seq<VersionView>>,
    downloads: Map<Seq<char>, Seq<(VersionView, Seq<char>)>>,
    name: Seq<char>,
    req: semver::VersionReq,
)
    requires
        descending(history_of(versions, name)),
    ensures
        resolved(versions, downloads, name, Some(req)) matches Some(hit) ==> satisfies(req, hit.0)
            && forall|j: int|
            0 <= j < history_of(versions, name).len() && satisfies(
                req,
                #[trigger] history_of(versions, name)[j],
            ) ==> history_of(versions, name)[j] == hit.0 || history_of(versions, name)[j].precedes(
                hit.0,
            ),
{
    let history = history_of(versions, name);
    lemma_first_satisfying(history, req);
    lemma_first_satisfying_is_highest(history, req);
}

/// The known versions are restored from any list of their entries: no
/// entry is refused, and the lists come back as they were.
pub proof fn lemma_versions_restored(
    entries: Seq<(Seq<char>, Seq<VersionView>)>,
    versions: Map<Seq<char>, Seq<VersionView>>,
)
    requires
        crate::registry::lists_map(entries, versions),
        forall|name: Seq<char>| #[trigger] versions.contains_key(name) ==> descending(versions[name]),
    ensures
        forall|i: int| 0 <= i < entries.len() ==> descending((#[trigger] entries[i]).1),
        mapped(entries) == versions,
{
    crate::registry::lemma_mapped_listing(entries, versions);
    assert forall|i: int| 0 <= i < entries.len() implies descending((#[trigger] entries[i]).1) by {
        assert(versions.contains_key(entries[i].0));
    }
}

/// The downloads are restored from what was saved of them, in whatever
/// order it is read back: `saved` lists the downloads, and `read` holds the
/// same packages with the same downloads, each list in some order.
pub proof fn lemma_downloads_restored(
    read: Seq<(Seq<char>, Seq<(VersionView, Seq<char>)>)>,
    saved: Seq<(Seq<char>, Seq<(VersionView, Seq<char>)>)>,
    downloads: Map<Seq<char>, Seq<(VersionView, Seq<char>)>>,
)
    requires
        crate::registry::lists_map(saved, downloads),
        forall|name: Seq<char>| #[trigger]
            downloads.contains_key(name) ==> descending(versions_in(downloads[name])),
        read.len() == saved.len(),
        forall|i: int|
            0 <= i < read.len() ==> (#[trigger] read[i]).0 == saved[i].0 && one_for_each(read[i].1)
                && forall|x: (VersionView, Seq<char>)|
                read[i].1.contains(x) <==> saved[i].1.contains(x),
    ensures
        mapped(arranged_each(read)) == downloads,
{
    assert forall|i: int| 0 <= i < read.len() implies arranged_each(read)[i] == saved[i] by {
        assert(downloads.contains_key(saved[i].0));
        assert(read[i].0 == saved[i].0);
        lemma_arranged_restores(read[i].1, saved[i].1);
    }
    assert(arranged_each(read) =~= saved);
    crate::registry::lemma_mapped_listing(saved, downloads);
}

} // verus!
