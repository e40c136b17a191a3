use just::kernel::{
    init, is_descending, AvailableDownloads, AvailableVersions, AvailableWorkspaces,
    Folder, InstalledPackages, Kernel, LocalPackage, Workspace,
};
use just::shim::{command_names, PackageShims, Shim};
use just::manifest::Package;
use just::system::WinPath;
use just::version::{Identifier, Version};
use semver::VersionReq;

fn package(name: &str, binaries: &[&str]) -> Package {
    Package { name: name.to_string(), binaries: binaries.iter().map(|b| b.to_string()).collect() }
}

fn folder() -> Folder {
    Folder {
        root_path: "/opt/just".to_string(),
        bin_path: "/opt/just/bin".to_string(),
        download_path: "/opt/just/downloads".to_string(),
        manifest_path: "/opt/just/manifests".to_string(),
    }
}

fn req(text: &str) -> VersionReq {
    VersionReq::parse(text).unwrap()
}

#[test]
fn versions_are_kept_in_descending_order() {
    let tool = package("tool", &[]);
    let mut versions = AvailableVersions::default();
    for (major, minor, patch) in [(1, 9, 5), (2, 1, 0), (0, 3, 0), (2, 0, 0), (10, 0, 0)] {
        versions.add_version(&tool, &Version::new(major, minor, patch));
    }
    let expected = vec![
        Version::new(10, 0, 0),
        Version::new(2, 1, 0),
        Version::new(2, 0, 0),
        Version::new(1, 9, 5),
        Version::new(0, 3, 0),
    ];
    assert_eq!(versions.get_all_versions_of(&tool), Some(&expected));
    assert_eq!(versions.get_latest_versions_of(&tool), Some(&Version::new(10, 0, 0)));
}

#[test]
fn a_version_is_added_once() {
    let tool = package("tool", &[]);
    let mut versions = AvailableVersions::default();
    versions.add_version(&tool, &Version::new(1, 0, 0));
    versions.add_version(&tool, &Version::new(2, 0, 0));
    versions.add_version(&tool, &Version::new(1, 0, 0));
    versions.add_version(&tool, &Version::new(2, 0, 0));
    let expected = vec![Version::new(2, 0, 0), Version::new(1, 0, 0)];
    assert_eq!(versions.get_all_versions_of(&tool), Some(&expected));
}

#[test]
fn a_version_that_differs_in_build_metadata_is_not_added() {
    let tool = package("tool", &[]);
    let mut versions = AvailableVersions::default();
    versions.add_version(&tool, &Version::new(1, 0, 0));
    let mut rebuilt = Version::new(1, 0, 0);
    rebuilt.build.push(Identifier::Numeric(2));
    versions.add_version(&tool, &rebuilt);
    assert_eq!(versions.get_all_versions_of(&tool), Some(&vec![Version::new(1, 0, 0)]));
}

#[test]
fn a_pre_release_stands_below_its_release() {
    let tool = package("tool", &[]);
    let mut versions = AvailableVersions::default();
    let beta = Version {
        major: 1,
        minor: 0,
        patch: 0,
        pre: vec![Identifier::AlphaNumeric("beta".to_string())],
        build: vec![],
    };
    versions.add_version(&tool, &beta);
    versions.add_version(&tool, &Version::new(1, 0, 0));
    versions.add_version(&tool, &Version::new(0, 9, 0));
    let listed = versions.get_all_versions_of(&tool).unwrap();
    assert_eq!(listed.len(), 3);
    assert_eq!(listed[0], Version::new(1, 0, 0));
    assert_eq!(listed[1], beta);
    assert_eq!(listed[2], Version::new(0, 9, 0));
}

#[test]
fn an_unknown_package_has_no_versions() {
    let versions = AvailableVersions::default();
    let tool = package("tool", &[]);
    assert_eq!(versions.get_all_versions_of(&tool), None);
    assert_eq!(versions.get_latest_versions_of(&tool), None);
    assert_eq!(versions.select(&tool, None), None);
}

#[test]
fn packages_have_separate_histories() {
    let a = package("a", &[]);
    let b = package("b", &[]);
    let mut versions = AvailableVersions::default();
    versions.add_version(&a, &Version::new(1, 0, 0));
    versions.add_version(&b, &Version::new(2, 0, 0));
    assert_eq!(versions.get_latest_versions_of(&a), Some(&Version::new(1, 0, 0)));
    assert_eq!(versions.get_latest_versions_of(&b), Some(&Version::new(2, 0, 0)));
}

#[test]
fn resolve_returns_the_highest_version_that_meets_the_constraint() {
    let tool = package("tool", &["tool.exe"]);
    let mut kernel = Kernel::new(folder());
    kernel.record_download(&tool, &Version::new(1, 9, 5), "/d/1.9.5");
    kernel.record_download(&tool, &Version::new(2, 0, 0), "/d/2.0.0");
    kernel.record_download(&tool, &Version::new(2, 1, 0), "/d/2.1.0");
    let history = vec![Version::new(2, 1, 0), Version::new(2, 0, 0), Version::new(1, 9, 5)];
    assert_eq!(kernel.versions.get_all_versions_of(&tool), Some(&history));
    let caret = req("^2.0.0");
    assert_eq!(
        kernel.resolve(&tool, Some(&caret)),
        Some((Version::new(2, 1, 0), "/d/2.1.0".to_string()))
    );
    let old = req("<2.0.0");
    assert_eq!(
        kernel.resolve(&tool, Some(&old)),
        Some((Version::new(1, 9, 5), "/d/1.9.5".to_string()))
    );
}

#[test]
fn resolve_does_not_depend_on_the_order_of_the_downloads() {
    let tool = package("tool", &["tool.exe"]);
    let mut kernel = Kernel::new(folder());
    kernel.record_download(&tool, &Version::new(2, 0, 0), "/d/2.0.0");
    kernel.record_download(&tool, &Version::new(2, 1, 0), "/d/2.1.0");
    kernel.record_download(&tool, &Version::new(1, 9, 5), "/d/1.9.5");
    let caret = req("^2.0.0");
    assert_eq!(
        kernel.resolve(&tool, Some(&caret)),
        Some((Version::new(2, 1, 0), "/d/2.1.0".to_string()))
    );
}

#[test]
fn resolve_finds_nothing_where_nothing_meets_the_constraint() {
    let tool = package("tool", &["tool.exe"]);
    let mut kernel = Kernel::new(folder());
    kernel.record_download(&tool, &Version::new(1, 0, 0), "/d/1.0.0");
    let three = req("^3");
    assert_eq!(kernel.resolve(&tool, Some(&three)), None);
    assert_eq!(kernel.resolve(&package("other", &[]), None), None);
    assert_eq!(kernel.resolve(&package("other", &[]), Some(&three)), None);
}

#[test]
fn resolve_without_a_constraint_gives_the_latest_version() {
    let tool = package("tool", &["tool.exe"]);
    let mut kernel = Kernel::new(folder());
    kernel.record_download(&tool, &Version::new(1, 0, 0), "/d/1.0.0");
    kernel.record_download(&tool, &Version::new(3, 0, 0), "/d/3.0.0");
    kernel.record_download(&tool, &Version::new(2, 0, 0), "/d/2.0.0");
    let latest = kernel.versions.get_latest_versions_of(&tool).cloned();
    assert_eq!(latest, Some(Version::new(3, 0, 0)));
    let resolved = kernel.resolve(&tool, None);
    assert_eq!(resolved.map(|hit| hit.0), latest);
    assert_eq!(kernel.resolve(&tool, None).unwrap().1, "/d/3.0.0");
}

#[test]
fn resolve_finds_nothing_for_a_version_without_a_download() {
    let tool = package("tool", &["tool.exe"]);
    let mut kernel = Kernel::new(folder());
    kernel.versions.add_version(&tool, &Version::new(1, 0, 0));
    assert_eq!(kernel.resolve(&tool, None), None);
}

#[test]
fn a_download_recorded_again_replaces_the_path() {
    let tool = package("tool", &["tool.exe"]);
    let mut kernel = Kernel::new(folder());
    kernel.record_download(&tool, &Version::new(1, 0, 0), "/d/first");
    kernel.record_download(&tool, &Version::new(1, 0, 0), "/d/second");
    assert_eq!(kernel.versions.get_all_versions_of(&tool), Some(&vec![Version::new(1, 0, 0)]));
    assert_eq!(
        kernel.downloads.path_of("tool", &Version::new(1, 0, 0)),
        Some(&"/d/second".to_string())
    );
    assert_eq!(kernel.downloads.path_of("tool", &Version::new(1, 0, 1)), None);
    assert_eq!(kernel.downloads.path_of("nothing", &Version::new(1, 0, 0)), None);
}

#[test]
fn add_download_records_the_root_of_the_download() {
    let tool = package("tool", &["bin/a.exe", "bin/b.exe"]);
    let version = Version::new(1, 0, 0);
    let local = LocalPackage { path: "tool-1.0.0", version: &version, package: &tool };
    let mut kernel = Kernel::new(folder());
    kernel.add_download(&local, "/opt/just/downloads");
    assert_eq!(
        kernel.downloads.path_of("tool", &version),
        Some(&"/opt/just/downloads/tool-1.0.0".to_string())
    );
    assert_eq!(kernel.downloads.get_downloads().get("tool").unwrap().len(), 1);
    assert_eq!(kernel.versions.get_all_versions_of(&tool), Some(&vec![Version::new(1, 0, 0)]));
}

#[test]
fn add_download_records_a_package_without_binaries_too() {
    let tool = package("tool", &[]);
    let version = Version::new(1, 0, 0);
    let local = LocalPackage { path: "tool-1.0.0", version: &version, package: &tool };
    let mut kernel = Kernel::new(folder());
    kernel.add_download(&local, "/opt/just/downloads");
    assert_eq!(
        kernel.downloads.path_of("tool", &version),
        Some(&"/opt/just/downloads/tool-1.0.0".to_string())
    );
    assert_eq!(kernel.versions.get_latest_versions_of(&tool), Some(&Version::new(1, 0, 0)));
}

#[test]
fn add_download_keeps_versions_and_paths_in_step() {
    let tool = package("tool", &["tool.exe"]);
    let mut kernel = Kernel::new(folder());
    for (version, dir) in [
        (Version::new(1, 0, 0), "tool-1.0.0"),
        (Version::new(2, 0, 0), "tool-2.0.0"),
        (Version::new(1, 5, 0), "tool-1.5.0"),
        (Version::new(2, 0, 0), "tool-2.0.0-again"),
    ] {
        let local = LocalPackage { path: dir, version: &version, package: &tool };
        kernel.add_download(&local, "/dl");
    }
    let history = kernel.versions.get_all_versions_of(&tool).unwrap().clone();
    assert_eq!(history, vec![Version::new(2, 0, 0), Version::new(1, 5, 0), Version::new(1, 0, 0)]);
    let paths: Vec<(Version, String)> = kernel.downloads.get_downloads().get("tool").unwrap().clone();
    assert_eq!(
        paths,
        vec![
            (Version::new(2, 0, 0), "/dl/tool-2.0.0-again".to_string()),
            (Version::new(1, 5, 0), "/dl/tool-1.5.0".to_string()),
            (Version::new(1, 0, 0), "/dl/tool-1.0.0".to_string()),
        ]
    );
    assert_eq!(
        kernel.resolve(&tool, None),
        Some((Version::new(2, 0, 0), "/dl/tool-2.0.0-again".to_string()))
    );
}

#[test]
fn the_shims_of_a_download_point_under_its_recorded_root() {
    let tool = package("tool", &["bin/tool.exe"]);
    let version = Version::new(1, 2, 0);
    let local = LocalPackage { path: "B", version: &version, package: &tool };
    let mut kernel = Kernel::new(folder());
    kernel.add_download(&local, "/opt/just/downloads");
    let (found, root) = kernel.resolve(&tool, None).unwrap();
    assert_eq!(found, version);
    assert_eq!(root, "/opt/just/downloads/B");
    let files = kernel.create_shims(&local).unwrap();
    assert_eq!(files[0].target, "/opt/just/downloads/B/bin/tool.exe");
    assert_eq!(files[0].target, format!("{}/bin/tool.exe", root));
    assert_eq!(files[0].pointer, "/opt/just/bin/tool");
}

#[test]
fn get_download_gives_the_highest_version_that_matches() {
    let downloads = AvailableDownloads::from_entries(vec![(
        "tool".to_string(),
        vec![
            (Version::new(2, 0, 0), "/d/2.0.0".to_string()),
            (Version::new(1, 9, 5), "/d/1.9.5".to_string()),
            (Version::new(2, 1, 0), "/d/2.1.0".to_string()),
        ],
    )]);
    let caret = req("^2.0.0");
    assert_eq!(
        downloads.get_download("tool", &caret),
        Some((&Version::new(2, 1, 0), &"/d/2.1.0".to_string()))
    );
    assert_eq!(downloads.get_download("tool", &req(">5")), None);
    assert_eq!(downloads.get_download("other", &caret), None);
}

#[test]
fn install_then_uninstall_returns_the_installed_version() {
    let tool = package("tool", &[]);
    let mut installed = InstalledPackages::default();
    assert!(!installed.is_installed("tool", None));
    installed.add_package(&tool, &Version::new(1, 2, 0));
    assert!(installed.is_installed("tool", None));
    assert_eq!(installed.installed_version("tool"), Some(&Version::new(1, 2, 0)));
    assert_eq!(installed.remove_package("tool"), Some(Version::new(1, 2, 0)));
    assert!(!installed.is_installed("tool", None));
    assert_eq!(installed.installed_version("tool"), None);
    assert_eq!(installed.remove_package("tool"), None);
}

#[test]
fn installing_again_replaces_the_version() {
    let tool = package("tool", &[]);
    let mut installed = InstalledPackages::default();
    installed.add_package(&tool, &Version::new(1, 0, 0));
    installed.add_package(&tool, &Version::new(2, 0, 0));
    assert_eq!(installed.installed_version("tool"), Some(&Version::new(2, 0, 0)));
    assert_eq!(installed.get_packages().entries().len(), 1);
}

#[test]
fn is_installed_checks_the_constraint() {
    let tool = package("tool", &[]);
    let mut installed = InstalledPackages::default();
    installed.add_package(&tool, &Version::new(1, 2, 0));
    assert!(installed.is_installed("tool", Some(req(">=1.1.0"))));
    assert!(!installed.is_installed("tool", Some(req("^2"))));
    assert!(!installed.is_installed("other", Some(req(">=1.1.0"))));
}

#[test]
fn a_workspace_is_added_inactive() {
    let mut workspaces = AvailableWorkspaces::default();
    workspaces.add_workspace("work", "/home/me/work");
    workspaces.add_workspace("play", "/home/me/play");
    workspaces.add_workspace("work", "/srv/work");
    let all = workspaces.get_workspaces();
    assert_eq!(all.entries().len(), 2);
    let work = all.get("work").unwrap();
    assert_eq!(work.path, "/srv/work");
    assert!(!work.active);
    assert_eq!(all.get("play").unwrap().path, "/home/me/play");
    assert!(all.get("none").is_none());
}

#[test]
fn a_shim_is_a_pointer_file_and_a_redirector() {
    let shim = Shim::new("tool.exe", "/opt/just/downloads/tool/bin/tool.exe");
    let files = shim.create(&folder()).unwrap();
    assert_eq!(files.pointer, "/opt/just/bin/tool");
    assert_eq!(files.target, "/opt/just/downloads/tool/bin/tool.exe");
    assert_eq!(files.source, "/opt/just/bin/shim.exe");
    assert_eq!(files.redirector, "/opt/just/bin/tool.exe");
}

#[test]
fn a_shim_without_a_base_name_fails() {
    let shim = Shim::new("..", "/opt/just/downloads/tool");
    let failed = shim.create(&folder()).unwrap_err();
    assert_eq!(failed.message(), "No Basename");
}

#[test]
fn create_shims_makes_one_shim_for_each_binary() {
    let tool = package("tool", &["bin/tool.exe", "helper.cmd"]);
    let version = Version::new(1, 0, 0);
    let local = LocalPackage { path: "tool-1.0.0", version: &version, package: &tool };
    let kernel = Kernel::new(folder());
    let files = kernel.create_shims(&local).unwrap();
    assert_eq!(files.len(), 2);
    assert_eq!(files[0].pointer, "/opt/just/bin/tool");
    assert_eq!(files[0].target, "/opt/just/downloads/tool-1.0.0/bin/tool.exe");
    assert_eq!(files[0].redirector, "/opt/just/bin/tool.exe");
    assert_eq!(files[0].source, "/opt/just/bin/shim.exe");
    assert_eq!(files[1].pointer, "/opt/just/bin/helper");
    assert_eq!(files[1].target, "/opt/just/downloads/tool-1.0.0/helper.cmd");
    assert_eq!(files[1].redirector, "/opt/just/bin/helper.cmd");
}

#[test]
fn create_shims_fails_for_a_binary_without_a_file_name() {
    let tool = package("tool", &["bin/tool.exe", "bin/.."]);
    let version = Version::new(1, 0, 0);
    let local = LocalPackage { path: "tool-1.0.0", version: &version, package: &tool };
    let kernel = Kernel::new(folder());
    let failed = kernel.create_shims(&local).unwrap_err();
    assert_eq!(failed.message(), "No Filename for Binary");
    let failed = kernel.remove_shims(&tool).unwrap_err();
    assert_eq!(failed.message(), "No Filename for Binary");
}

#[test]
fn remove_shims_deletes_what_create_shims_wrote() {
    let tool = package("tool", &["bin/tool.exe", "helper.cmd"]);
    let version = Version::new(1, 0, 0);
    let local = LocalPackage { path: "tool-1.0.0", version: &version, package: &tool };
    let kernel = Kernel::new(folder());
    let created = kernel.create_shims(&local).unwrap();
    let removed = kernel.remove_shims(&tool).unwrap();
    let mut written = Vec::new();
    for files in created.iter() {
        written.push(files.redirector.clone());
        written.push(files.pointer.clone());
    }
    assert_eq!(removed, written);
    assert_eq!(
        removed,
        vec![
            "/opt/just/bin/tool.exe".to_string(),
            "/opt/just/bin/tool".to_string(),
            "/opt/just/bin/helper.cmd".to_string(),
            "/opt/just/bin/helper".to_string(),
        ]
    );
    let mut dir: Vec<String> = vec!["/opt/just/bin/shim.exe".to_string()];
    for path in written.iter() {
        if !dir.contains(path) {
            dir.push(path.clone());
        }
    }
    for path in removed.iter() {
        let at = dir.iter().position(|p| p == path).unwrap();
        dir.remove(at);
    }
    assert_eq!(dir, vec!["/opt/just/bin/shim.exe".to_string()]);
}

#[test]
fn creating_shims_twice_gives_the_same_files() {
    let tool = package("tool", &["bin/tool.exe"]);
    let version = Version::new(1, 0, 0);
    let local = LocalPackage { path: "tool-1.0.0", version: &version, package: &tool };
    let kernel = Kernel::new(folder());
    let first = kernel.create_shims(&local).unwrap();
    let second = kernel.create_shims(&local).unwrap();
    assert_eq!(first.len(), second.len());
    assert_eq!(first[0].pointer, second[0].pointer);
    assert_eq!(first[0].redirector, second[0].redirector);
    assert_eq!(first[0].target, second[0].target);
}

#[test]
fn install_with_a_constraint_takes_the_highest_match() {
    let tool = package("tool", &["bin/tool.exe"]);
    let mut kernel = Kernel::new(folder());
    kernel.record_download(&tool, &Version::new(1, 0, 0), "/store/A");
    kernel.record_download(&tool, &Version::new(1, 2, 0), "/store/B");
    let constraint = req(">=1.1.0");
    let (version, path) = kernel.resolve(&tool, Some(&constraint)).unwrap();
    assert_eq!(version, Version::new(1, 2, 0));
    assert_eq!(path, "/store/B");
    let local = LocalPackage { path: path.as_str(), version: &version, package: &tool };
    let files = kernel.create_shims(&local).unwrap();
    assert_eq!(files.len(), 1);
    assert_eq!(files[0].pointer, "/opt/just/bin/tool");
    assert_eq!(files[0].target, "/store/B/bin/tool.exe");
    assert_eq!(files[0].redirector, "/opt/just/bin/tool.exe");
    kernel.packages.add_package(&tool, &version);
    assert_eq!(kernel.packages.installed_version("tool"), Some(&Version::new(1, 2, 0)));
    assert!(kernel.packages.is_installed("tool", Some(constraint)));
}

#[test]
fn bootstrap_persists_the_search_path_once() {
    let mut search = WinPath::new(vec!["/usr/bin".to_string()]);
    let first = init(folder(), true, true, false, &mut search).unwrap();
    assert!(first.create_download_dir);
    let command = first.persist.unwrap();
    assert_eq!(command.exe, "setx");
    assert_eq!(command.args, vec!["PATH".to_string(), "/usr/bin;/opt/just/bin".to_string()]);
    assert!(command.silent);
    assert_eq!(search.current(), &vec!["/usr/bin".to_string(), "/opt/just/bin".to_string()]);
    let second = init(folder(), true, true, true, &mut search).unwrap();
    assert!(!second.create_download_dir);
    assert!(second.persist.is_none());
    assert_eq!(search.current(), &vec!["/usr/bin".to_string(), "/opt/just/bin".to_string()]);
    assert_eq!(second.folder.bin_path, "/opt/just/bin");
    assert_eq!(second.folder.root_path, "/opt/just");
}

#[test]
fn init_fails_without_the_bin_directory() {
    let mut search = WinPath::new(vec![]);
    let failed = init(folder(), false, true, true, &mut search).unwrap_err();
    assert_eq!(failed.message(), "Invalid bin path: /opt/just/bin does not exist");
    assert!(search.current().is_empty());
    let failed = init(folder(), false, false, true, &mut search).unwrap_err();
    assert_eq!(failed.message(), "Invalid bin path: /opt/just/bin does not exist");
}

#[test]
fn init_fails_without_the_manifest_directory() {
    let mut search = WinPath::new(vec![]);
    let failed = init(folder(), true, false, true, &mut search).unwrap_err();
    assert_eq!(failed.message(), "Invalid manifest path: /opt/just/manifests does not exist");
    assert!(search.current().is_empty());
}

#[test]
fn the_layout_follows_from_the_executable() {
    let folder = Folder::locate("/opt/just/bin/just.exe").unwrap();
    assert_eq!(folder.bin_path, "/opt/just/bin");
    assert_eq!(folder.root_path, "/opt/just");
    assert_eq!(folder.manifest_path, "/opt/just/manifests");
    assert_eq!(folder.download_path, "/opt/just/downloads");
    assert!(Folder::locate("/").is_none());
    assert!(Folder::locate("just.exe").is_none());
}

#[test]
fn the_state_file_lies_under_the_root() {
    let kernel = Kernel::new(folder());
    assert_eq!(kernel.config_path(), "/opt/just/just.toml");
}

#[test]
fn a_new_kernel_knows_nothing() {
    let kernel = Kernel::new(folder());
    assert!(kernel.packages.get_packages().entries().is_empty());
    assert!(kernel.downloads.get_downloads().entries().is_empty());
    assert!(kernel.versions.get_versions().entries().is_empty());
    assert!(kernel.workspaces.get_workspaces().entries().is_empty());
    assert_eq!(kernel.path.root_path, "/opt/just");
}

#[test]
fn shim_errors_name_the_first_binary_that_fails() {
    let kernel = Kernel::new(folder());
    let version = Version::new(1, 0, 0);
    let nameless = package("tool", &["ok.exe", "..", "also/.."]);
    let local = LocalPackage { path: "tool", version: &version, package: &nameless };
    assert_eq!(kernel.create_shims(&local).unwrap_err().message(), "No Filename for Binary");
    assert_eq!(kernel.remove_shims(&nameless).unwrap_err().message(), "No Filename for Binary");
    let empty = package("tool", &[""]);
    let local = LocalPackage { path: "tool", version: &version, package: &empty };
    assert_eq!(kernel.create_shims(&local).unwrap_err().message(), "No Filename for Binary");
}

#[test]
fn a_package_without_binaries_has_no_shims() {
    let kernel = Kernel::new(folder());
    let version = Version::new(1, 0, 0);
    let bare = package("bare", &[]);
    let local = LocalPackage { path: "bare", version: &version, package: &bare };
    assert!(kernel.create_shims(&local).unwrap().is_empty());
    assert!(kernel.remove_shims(&bare).unwrap().is_empty());
}

#[test]
fn descending_lists_are_told_from_others() {
    assert!(is_descending(&vec![]));
    assert!(is_descending(&vec![Version::new(1, 0, 0)]));
    assert!(is_descending(&vec![Version::new(3, 0, 0), Version::new(2, 5, 0), Version::new(2, 4, 9)]));
    assert!(!is_descending(&vec![Version::new(1, 0, 0), Version::new(2, 0, 0)]));
    assert!(!is_descending(&vec![Version::new(2, 0, 0), Version::new(2, 0, 0)]));
    assert!(!is_descending(&vec![Version::new(3, 0, 0), Version::new(1, 0, 0), Version::new(2, 0, 0)]));
}

#[test]
fn versions_come_back_from_their_entries() {
    let a = package("a", &[]);
    let b = package("b", &[]);
    let mut versions = AvailableVersions::default();
    versions.add_version(&a, &Version::new(1, 0, 0));
    versions.add_version(&a, &Version::new(3, 0, 0));
    versions.add_version(&a, &Version::new(2, 0, 0));
    versions.add_version(&b, &Version::new(0, 1, 0));
    let mut saved: Vec<(String, Vec<Version>)> = versions
        .get_versions()
        .entries()
        .iter()
        .map(|(name, list)| (name.clone(), list.clone()))
        .collect();
    saved.reverse();
    let restored = AvailableVersions::from_entries(saved).unwrap();
    assert_eq!(restored.get_all_versions_of(&a), versions.get_all_versions_of(&a));
    assert_eq!(restored.get_all_versions_of(&b), versions.get_all_versions_of(&b));
    assert_eq!(
        restored.get_all_versions_of(&a),
        Some(&vec![Version::new(3, 0, 0), Version::new(2, 0, 0), Version::new(1, 0, 0)])
    );
}

#[test]
fn versions_out_of_order_are_refused() {
    let unordered = vec![
        ("a".to_string(), vec![Version::new(2, 0, 0), Version::new(1, 0, 0)]),
        ("b".to_string(), vec![Version::new(1, 0, 0), Version::new(2, 0, 0)]),
    ];
    assert!(AvailableVersions::from_entries(unordered).is_none());
    let repeated = vec![("a".to_string(), vec![Version::new(1, 0, 0), Version::new(1, 0, 0)])];
    assert!(AvailableVersions::from_entries(repeated).is_none());
    assert!(AvailableVersions::from_entries(vec![]).is_some());
}

#[test]
fn downloads_come_back_from_their_entries() {
    let tool = package("tool", &[]);
    let other = package("other", &[]);
    let mut kernel = Kernel::new(folder());
    kernel.record_download(&tool, &Version::new(1, 0, 0), "/d/1");
    kernel.record_download(&tool, &Version::new(2, 0, 0), "/d/2");
    kernel.record_download(&tool, &Version::new(1, 5, 0), "/d/1.5");
    kernel.record_download(&other, &Version::new(0, 1, 0), "/d/o");
    let downloads = &kernel.downloads;
    let mut saved: Vec<(String, Vec<(Version, String)>)> = downloads
        .get_downloads()
        .entries()
        .iter()
        .map(|(name, list)| (name.clone(), list.clone()))
        .collect();
    saved.reverse();
    for entry in saved.iter_mut() {
        entry.1.reverse();
    }
    let restored = AvailableDownloads::from_entries(saved);
    assert_eq!(restored.path_of("tool", &Version::new(1, 0, 0)), Some(&"/d/1".to_string()));
    assert_eq!(restored.path_of("tool", &Version::new(2, 0, 0)), Some(&"/d/2".to_string()));
    assert_eq!(restored.path_of("other", &Version::new(0, 1, 0)), Some(&"/d/o".to_string()));
    assert_eq!(restored.get_downloads().get("tool"), downloads.get_downloads().get("tool"));
    assert_eq!(
        restored.get_downloads().get("tool"),
        Some(&vec![
            (Version::new(2, 0, 0), "/d/2".to_string()),
            (Version::new(1, 5, 0), "/d/1.5".to_string()),
            (Version::new(1, 0, 0), "/d/1".to_string()),
        ])
    );
}

#[test]
fn of_two_downloads_of_one_version_the_later_stays() {
    let restored = AvailableDownloads::from_entries(vec![(
        "tool".to_string(),
        vec![
            (Version::new(1, 0, 0), "first".to_string()),
            (Version::new(2, 0, 0), "other".to_string()),
            (Version::new(1, 0, 0), "second".to_string()),
        ],
    )]);
    assert_eq!(
        restored.get_downloads().get("tool"),
        Some(&vec![
            (Version::new(2, 0, 0), "other".to_string()),
            (Version::new(1, 0, 0), "second".to_string()),
        ])
    );
}

#[test]
fn installed_packages_and_workspaces_come_back_from_their_entries() {
    let installed = InstalledPackages::from_entries(vec![
        ("a".to_string(), Version::new(1, 0, 0)),
        ("b".to_string(), Version::new(2, 0, 0)),
        ("a".to_string(), Version::new(3, 0, 0)),
    ]);
    assert_eq!(installed.installed_version("a"), Some(&Version::new(3, 0, 0)));
    assert_eq!(installed.installed_version("b"), Some(&Version::new(2, 0, 0)));
    assert_eq!(installed.get_packages().entries().len(), 2);
    let workspaces = AvailableWorkspaces::from_entries(vec![(
        "work".to_string(),
        Workspace { path: "/w".to_string(), active: true },
    )]);
    let work = workspaces.get_workspaces().get("work").unwrap();
    assert_eq!(work.path, "/w");
    assert!(work.active);
}

#[test]
fn the_search_path_is_not_extended_twice() {
    let mut search = WinPath::new(vec!["/opt/just/bin/".to_string()]);
    let start = init(folder(), true, true, true, &mut search).unwrap();
    assert!(start.persist.is_none());
    assert_eq!(search.current().len(), 1);
}

#[test]
fn the_pointer_file_is_named_by_the_stem() {
    let cases = [
        ("tool.exe", "tool"),
        ("archive.tar.gz", "archive.tar"),
        ("dot.", "dot"),
        (".hidden.cmd", ".hidden"),
    ];
    for (name, stem) in cases {
        let files = Shim::new(name, "/target").create(&folder()).unwrap();
        assert_eq!(files.pointer, format!("/opt/just/bin/{}", stem));
        assert_eq!(files.redirector, format!("/opt/just/bin/{}", name));
    }
}

#[test]
fn a_name_without_an_extension_is_refused() {
    for name in ["plain", ".profile"] {
        let failed = Shim::new(name, "/target").create(&folder()).unwrap_err();
        assert_eq!(failed.message(), "No Extension for Binary");
    }
    let kernel = Kernel::new(folder());
    let version = Version::new(1, 0, 0);
    let bare = package("tool", &["bin/tool.exe", "bin/tool"]);
    let local = LocalPackage { path: "tool", version: &version, package: &bare };
    assert_eq!(kernel.create_shims(&local).unwrap_err().message(), "No Extension for Binary");
    assert_eq!(kernel.remove_shims(&bare).unwrap_err().message(), "No Extension for Binary");
}

#[test]
fn a_name_that_is_a_path_is_refused() {
    for name in ["dir/inner.cmd", "tool.exe/", "..", ""] {
        let failed = Shim::new(name, "/target").create(&folder()).unwrap_err();
        assert_eq!(failed.message(), "No Basename");
    }
}

#[test]
fn binaries_that_share_a_file_in_the_bin_directory_are_refused() {
    let kernel = Kernel::new(folder());
    let version = Version::new(1, 0, 0);
    for binaries in [
        ["a/tool.exe", "b/tool.exe"],
        ["tool.exe", "tool.cmd"],
        ["tool.exe.cmd", "tool.exe"],
        ["x.y", "x.y.z"],
    ] {
        let twice = package("tool", &binaries);
        let local = LocalPackage { path: "tool", version: &version, package: &twice };
        assert_eq!(
            kernel.create_shims(&local).unwrap_err().message(),
            "Binary name is taken twice"
        );
        assert_eq!(kernel.remove_shims(&twice).unwrap_err().message(), "Binary name is taken twice");
    }
    let fine = package("tool", &["a/tool.exe", "b/other.exe"]);
    let local = LocalPackage { path: "tool", version: &version, package: &fine };
    assert_eq!(kernel.create_shims(&local).unwrap().len(), 2);
}

#[test]
fn the_first_binary_that_is_refused_gives_the_reason() {
    let kernel = Kernel::new(folder());
    let mixed = package("tool", &["ok.exe", "plain", "..", "ok.exe"]);
    assert_eq!(kernel.remove_shims(&mixed).unwrap_err().message(), "No Extension for Binary");
    let mixed = package("tool", &["ok.exe", "ok.exe", "plain"]);
    assert_eq!(kernel.remove_shims(&mixed).unwrap_err().message(), "Binary name is taken twice");
}

#[test]
fn command_names_are_file_name_and_stem_of_each_binary() {
    let binaries = vec!["bin/tool.exe".to_string(), "helper.tar.gz".to_string()];
    let names = command_names(&binaries).unwrap();
    assert_eq!(names, vec!["tool.exe", "tool", "helper.tar.gz", "helper.tar"]);
    assert!(command_names(&vec![]).unwrap().is_empty());
}
