//! Shims: the pairs of files in the bin directory that make the binaries of
//! an installed package commands.
//!
//! A binary becomes a command by two files in the bin directory: a copy of
//! the redirector under the binary's file name, and a pointer file under the
//! file name without its extension, which holds the path of the binary. No
//! file of the bin directory serves two commands: a package whose binaries
//! would share a file there is refused, and so is a binary without an
//! extension, whose two files would be one.

use vstd::prelude::*;
use crate::kernel::{Folder, Kernel, LocalPackage};
use crate::manifest::Package;
use crate::path::{
    file_name, file_name_of, find_last_dot, join, joined, last_dot, lemma_last_dot, stem, stem_of,
};
use crate::registry::same_text;
use crate::result::{BoxedErr, BoxedResult};

verus! {

/// The name of the redirector executable, in the bin directory.
pub const SHIM_EXE: &'static str = "shim.exe";

/// The two files that make a binary a command, and what goes into them.
#[derive(Debug)]
pub struct ShimFiles {
    /// The path of the pointer file, named after the binary without its
    /// extension.
    pub pointer: String,
    /// The content of the pointer file: the path of the binary.
    pub target: String,
    /// The path of the redirector executable to copy.
    pub source: String,
    /// The path of the copy, named as the binary is.
    pub redirector: String,
}

/// The mathematical value of [`ShimFiles`].
pub struct ShimFilesView {
    pub pointer: Seq<char>,
    pub target: Seq<char>,
    pub source: Seq<char>,
    pub redirector: Seq<char>,
}

impl DeepView for ShimFiles {
    type V = ShimFilesView;

    open spec fn deep_view(&self) -> ShimFilesView {
        ShimFilesView {
            pointer: self.pointer@,
            target: self.target@,
            source: self.source@,
            redirector: self.redirector@,
        }
    }
}

/// Why `name` cannot name a command, if it cannot: it is no file name, or it
/// has no extension, so that the pointer file and the redirector would be
/// one file.
pub open spec fn unfit(name: Seq<char>) -> Option<Seq<char>> {
    if file_name_of(name) != Some(name) {
        Some("No Basename"@)
    } else if last_dot(name) <= 0 {
        Some("No Extension for Binary"@)
    } else {
        None
    }
}

/// The files of the shim for the binary with the file name `name` that lies
/// at `target`, in the bin directory `bin`.
pub open spec fn shim_files(bin: Seq<char>, name: Seq<char>, target: Seq<char>) -> ShimFilesView {
    ShimFilesView {
        pointer: joined(bin, stem_of(name)),
        target,
        source: joined(bin, SHIM_EXE@),
        redirector: joined(bin, name),
    }
}

/// A binary to make a command of: its file name and where it lies.
#[derive(Debug)]
pub struct Shim {
    binary_name: String,
    binary_path: String,
}

/// The mathematical value of a [`Shim`].
pub struct ShimView {
    pub binary_name: Seq<char>,
    pub binary_path: Seq<char>,
}

impl View for Shim {
    type V = ShimView;

    closed spec fn view(&self) -> ShimView {
        ShimView { binary_name: self.binary_name@, binary_path: self.binary_path@ }
    }
}

/// Whether `name` is a file name with an extension; the reason if it is not.
fn check_name(name: &str) -> (r: BoxedResult<()>)
    ensures
        match r {
            Ok(_) => unfit(name@) is None,
            Err(e) => unfit(name@) == Some(e@),
        },
{
    let plain = match file_name(name) {
        Some(last) => same_text(last.as_str(), name),
        None => false,
    };
    if !plain {
        return BoxedErr::with("No Basename");
    }
    match find_last_dot(name) {
        Some(at) => {
            if at == 0 {
                BoxedErr::with("No Extension for Binary")
            } else {
                Ok(())
            }
        },
        None => BoxedErr::with("No Extension for Binary"),
    }
}

impl Shim {
    /// The shim for the binary with the file name `binary_name` at
    /// `binary_path`.
    pub fn new(binary_name: &str, binary_path: &str) -> (r: Shim)
        ensures
            r@ == (ShimView { binary_name: binary_name@, binary_path: binary_path@ }),
    {
        Shim { binary_name: binary_name.to_owned(), binary_path: binary_path.to_owned() }
    }

    /// The files to write for this shim in the bin directory of `folder`. It
    /// fails for a name that is no file name or has no extension.
    pub fn create(&self, folder: &Folder) -> (r: BoxedResult<ShimFiles>)
        ensures
            match r {
                Ok(files) => unfit(self@.binary_name) is None && files.deep_view() == shim_files(
                    folder@.bin_path,
                    self@.binary_name,
                    self@.binary_path,
                ),
                Err(e) => unfit(self@.binary_name) == Some(e@),
            },
    {
        match check_name(self.binary_name.as_str()) {
            Ok(_) => {
                let bin = folder.bin_path.as_str();
                let base = stem(self.binary_name.as_str());
                Ok(
                    ShimFiles {
                        pointer: join(bin, base.as_str()),
                        target: self.binary_path.clone(),
                        source: join(bin, SHIM_EXE),
                        redirector: join(bin, self.binary_name.as_str()),
                    },
                )
            },
            Err(e) => Err(e),
        }
    }
}

/// Why `binary` cannot be made a command beside the files `taken` in the bin
/// directory, if it cannot: it has no file name, its file name is unfit, or
/// one of its two files is taken.
pub open spec fn refusal(taken: Seq<Seq<char>>, binary: Seq<char>) -> Option<Seq<char>> {
    match file_name_of(binary) {
        None => Some("No Filename for Binary"@),
        Some(name) => if unfit(name) is Some {
            unfit(name)
        } else if taken.contains(name) || taken.contains(stem_of(name)) {
            Some("Binary name is taken twice"@)
        } else {
            None
        },
    }
}

/// The names of the files that the shims of `binaries` take in the bin
/// directory: for each binary, in order, the name of its redirector and the
/// name of its pointer file. Where a binary cannot be made a command there
/// are none, but the reason for the first such binary.
pub open spec fn names_for(binaries: Seq<Seq<char>>) -> Result<Seq<Seq<char>>, Seq<char>>
    decreases binaries.len(),
{
    if binaries.len() == 0 {
        Ok(Seq::empty())
    } else {
        match names_for(binaries.drop_last()) {
            Ok(taken) => match refusal(taken, binaries.last()) {
                Some(reason) => Err(reason),
                None => {
                    let name = file_name_of(binaries.last())->0;
                    Ok(taken.push(name).push(stem_of(name)))
                },
            },
            Err(reason) => Err(reason),
        }
    }
}

/// The files of the shims of `binaries`, whose files in the bin directory
/// have the names `names` and whose download lies at `root`.
pub open spec fn shims_at(
    bin: Seq<char>,
    root: Seq<char>,
    binaries: Seq<Seq<char>>,
    names: Seq<Seq<char>>,
) -> Seq<ShimFilesView> {
    Seq::new(binaries.len(), |i: int| shim_files(bin, names[2 * i], joined(root, binaries[i])))
}

/// The paths of the files with the names `names` in the bin directory.
pub open spec fn paths_at(bin: Seq<char>, names: Seq<Seq<char>>) -> Seq<Seq<char>> {
    Seq::new(names.len(), |i: int| joined(bin, names[i]))
}

/// What the names of the shims of a package are: two for each binary, its
/// file name and the stem of that, all fit to name a command and no two of
/// them the same.
pub proof fn lemma_names_for(binaries: Seq<Seq<char>>)
    requires
        names_for(binaries) is Ok,
    ensures
        names_for(binaries)->Ok_0.len() == 2 * binaries.len(),
        names_for(binaries)->Ok_0.no_duplicates(),
        forall|i: int|
            0 <= i < binaries.len() ==> {
                &&& file_name_of(#[trigger] binaries[i]) == Some(names_for(binaries)->Ok_0[2 * i])
                &&& unfit(names_for(binaries)->Ok_0[2 * i]) is None
                &&& names_for(binaries)->Ok_0[2 * i + 1] == stem_of(names_for(binaries)->Ok_0[2 * i])
            },
    decreases binaries.len(),
{
    if binaries.len() > 0 {
        let front = binaries.drop_last();
        lemma_names_for(front);
        let taken = names_for(front)->Ok_0;
        let name = file_name_of(binaries.last())->0;
        let names = names_for(binaries)->Ok_0;
        assert(names == taken.push(name).push(stem_of(name)));
        lemma_last_dot(name);
        assert(stem_of(name).len() < name.len());
        assert forall|i: int, j: int|
            0 <= i < names.len() && 0 <= j < names.len() && i != j implies names[i]
            != names[j] by {
            if i < taken.len() {
                assert(taken.contains(taken[i]));
            }
            if j < taken.len() {
                assert(taken.contains(taken[j]));
            }
        }
        assert forall|i: int| 0 <= i < binaries.len() implies {
            &&& file_name_of(#[trigger] binaries[i]) == Some(names[2 * i])
            &&& unfit(names[2 * i]) is None
            &&& names[2 * i + 1] == stem_of(names[2 * i])
        } by {
            if i < front.len() {
                assert(front[i] == binaries[i]);
                assert(names[2 * i] == taken[2 * i]);
                assert(names[2 * i + 1] == taken[2 * i + 1]);
            }
        }
    }
}

/// What the shim of each binary is: the pointer file is named after the stem
/// of the binary's file name and holds the path of the binary under the
/// root of the download, and the redirector is named as the binary is.
pub proof fn lemma_shims_at(bin: Seq<char>, root: Seq<char>, binaries: Seq<Seq<char>>)
    requires
        names_for(binaries) is Ok,
    ensures
        forall|i: int|
            0 <= i < binaries.len() ==> file_name_of(binaries[i]) is Some && (#[trigger] shims_at(
                bin,
                root,
                binaries,
                names_for(binaries)->Ok_0,
            )[i]) == (ShimFilesView {
                pointer: joined(bin, stem_of(file_name_of(binaries[i])->0)),
                target: joined(root, binaries[i]),
                source: joined(bin, SHIM_EXE@),
                redirector: joined(bin, file_name_of(binaries[i])->0),
            }),
{
    lemma_names_for(binaries);
}

/// Where a binary is refused beside the names of those before it, the
/// package is refused for that reason.
proof fn lemma_names_fail(binaries: Seq<Seq<char>>, at: int)
    requires
        0 <= at < binaries.len(),
        names_for(binaries.take(at)) is Ok,
        refusal(names_for(binaries.take(at))->Ok_0, binaries[at]) is Some,
    ensures
        names_for(binaries) == Err::<Seq<Seq<char>>, Seq<char>>(
            refusal(names_for(binaries.take(at))->Ok_0, binaries[at])->0,
        ),
    decreases binaries.len(),
{
    let front = binaries.drop_last();
    if at == binaries.len() - 1 {
        assert(binaries.take(at) =~= front);
    } else {
        assert(front.take(at) =~= binaries.take(at));
        assert(front[at] == binaries[at]);
        lemma_names_fail(front, at);
    }
}

/// Whether `text` is among `list`.
fn holds(list: &Vec<String>, text: &str) -> (r: bool)
    ensures
        r == list.deep_view().contains(text@),
{
    let mut i: usize = 0;
    while i < list.len()
        invariant
            i <= list@.len(),
            forall|j: int| 0 <= j < i ==> list.deep_view()[j] != text@,
        decreases list@.len() - i,
    {
        if same_text(list[i].as_str(), text) {
            assert(list.deep_view()[i as int] == text@);
            return true;
        }
        i += 1;
    }
    false
}

/// The names of the files that the shims of `binaries` take in the bin
/// directory, or the reason for which the first binary that cannot be made
/// a command is refused.
pub fn command_names(binaries: &Vec<String>) -> (r: BoxedResult<Vec<String>>)
    ensures
        match r {
            Ok(names) => names_for(binaries.deep_view()) == Ok::<Seq<Seq<char>>, Seq<char>>(
                names.deep_view(),
            ),
            Err(e) => names_for(binaries.deep_view()) == Err::<Seq<Seq<char>>, Seq<char>>(e@),
        },
{
    let ghost all = binaries.deep_view();
    let mut taken: Vec<String> = Vec::new();
    let mut i: usize = 0;
    assert(all.take(0) =~= Seq::<Seq<char>>::empty());
    assert(taken.deep_view() =~= Seq::<Seq<char>>::empty());
    while i < binaries.len()
        invariant
            i <= binaries@.len(),
            all == binaries.deep_view(),
            names_for(all.take(i as int)) == Ok::<Seq<Seq<char>>, Seq<char>>(taken.deep_view()),
        decreases binaries@.len() - i,
    {
        let binary = binaries[i].as_str();
        let ghost before = taken.deep_view();
        proof {
            let upto = all.take(i + 1);
            assert(upto.drop_last() =~= all.take(i as int));
            assert(upto.last() == binary@);
            assert(all[i as int] == binary@);
        }
        let name = match file_name(binary) {
            Some(name) => name,
            None => {
                proof {
                    lemma_names_fail(all, i as int);
                }
                return BoxedErr::with("No Filename for Binary");
            },
        };
        match check_name(name.as_str()) {
            Ok(_) => {},
            Err(e) => {
                proof {
                    lemma_names_fail(all, i as int);
                }
                return Err(e);
            },
        }
        let base = stem(name.as_str());
        if holds(&taken, name.as_str()) || holds(&taken, base.as_str()) {
            proof {
                lemma_names_fail(all, i as int);
            }
            return BoxedErr::with("Binary name is taken twice");
        }
        taken.push(name);
        taken.push(base);
        assert(taken.deep_view() =~= before.push(name@).push(base@));
        i += 1;
    }
    assert(all.take(all.len() as int) =~= all);
    Ok(taken)
}

/// Making and removing the shims of a package.
pub trait PackageShims {
    /// The files to write so that each binary of the download `local` is a
    /// command.
    fn create_shims(&self, local: &LocalPackage) -> BoxedResult<Vec<ShimFiles>>;

    /// The files to delete so that no binary of `package` is a command any
    /// more.
    fn remove_shims(&self, package: &Package) -> BoxedResult<Vec<String>>;
}

impl PackageShims for Kernel {
    /// For each binary of the package, in order, the pointer file named
    /// after the stem of the binary's file name, holding the path of the
    /// binary under the download, and the redirector copy named as the
    /// binary is. It fails, with nothing to write, if a binary cannot be
    /// made a command.
    fn create_shims(&self, local: &LocalPackage) -> (r: BoxedResult<Vec<ShimFiles>>)
        ensures
            match r {
                Ok(files) => names_for(local.package@.binaries) is Ok && files.deep_view()
                    == shims_at(
                    self.path@.bin_path,
                    joined(self.path@.download_path, local.path@),
                    local.package@.binaries,
                    names_for(local.package@.binaries)->Ok_0,
                ),
                Err(e) => names_for(local.package@.binaries) == Err::<Seq<Seq<char>>, Seq<char>>(
                    e@,
                ),
            },
    {
        let names = match command_names(&local.package.binaries) {
            Ok(names) => names,
            Err(e) => {
                return Err(e);
            },
        };
        let root = join(self.path.download_path.as_str(), local.path);
        let ghost bin = self.path@.bin_path;
        let ghost binaries = local.package@.binaries;
        proof {
            lemma_names_for(binaries);
            assert forall|k: int| 0 <= k < binaries.len() implies unfit(
                #[trigger] names.deep_view()[2 * k],
            ) is None by {
                assert(file_name_of(binaries[k]) == Some(names.deep_view()[2 * k]));
            }
        }
        let count = names.len();
        let mut out: Vec<ShimFiles> = Vec::new();
        let mut i: usize = 0;
        while i < local.package.binaries.len()
            invariant
                i <= local.package.binaries@.len(),
                count == names@.len(),
                binaries == local.package.binaries.deep_view(),
                bin == self.path@.bin_path,
                root@ == joined(self.path@.download_path, local.path@),
                names_for(binaries) == Ok::<Seq<Seq<char>>, Seq<char>>(names.deep_view()),
                names@.len() == 2 * binaries.len(),
                forall|k: int|
                    0 <= k < binaries.len() ==> unfit(#[trigger] names.deep_view()[2 * k]) is None,
                out@.len() == i,
                forall|k: int|
                    0 <= k < i ==> (#[trigger] out.deep_view()[k]) == shims_at(
                        bin,
                        root@,
                        binaries,
                        names.deep_view(),
                    )[k],
            decreases local.package.binaries@.len() - i,
        {
            let target = join(root.as_str(), local.package.binaries[i].as_str());
            assert(binaries[i as int] == local.package.binaries@[i as int]@);
            assert(2 * i < count);
            assert(names.deep_view()[2 * i] == names@[2 * i]@);
            assert(unfit(names.deep_view()[2 * i]) is None);
            let made = Shim::new(names[2 * i].as_str(), target.as_str()).create(&self.path);
            match made {
                Ok(files) => {
                    let ghost before = out.deep_view();
                    out.push(files);
                    assert forall|k: int| 0 <= k < i + 1 implies (#[trigger] out.deep_view()[k])
                        == shims_at(bin, root@, binaries, names.deep_view())[k] by {
                        if k < i {
                            assert(out.deep_view()[k] == before[k]);
                        }
                    }
                },
                Err(e) => {
                    return Err(e);
                },
            }
            i += 1;
        }
        assert(out.deep_view() =~= shims_at(bin, root@, binaries, names.deep_view()));
        Ok(out)
    }

    /// For each binary of the package, in order, the redirector copy and
    /// the pointer file. It fails, with nothing to delete, for the packages
    /// for which making the shims fails, and for the same reason.
    fn remove_shims(&self, package: &Package) -> (r: BoxedResult<Vec<String>>)
        ensures
            match r {
                Ok(paths) => names_for(package@.binaries) is Ok && paths.deep_view() == paths_at(
                    self.path@.bin_path,
                    names_for(package@.binaries)->Ok_0,
                ),
                Err(e) => names_for(package@.binaries) == Err::<Seq<Seq<char>>, Seq<char>>(e@),
            },
    {
        let names = match command_names(&package.binaries) {
            Ok(names) => names,
            Err(e) => {
                return Err(e);
            },
        };
        let ghost bin = self.path@.bin_path;
        let mut out: Vec<String> = Vec::new();
        let mut i: usize = 0;
        while i < names.len()
            invariant
                i <= names@.len(),
                bin == self.path@.bin_path,
                out@.len() == i,
                forall|k: int|
                    0 <= k < i ==> (#[trigger] out.deep_view()[k]) == joined(bin, names.deep_view()[k]),
            decreases names@.len() - i,
        {
            let ghost before = out.deep_view();
            out.push(join(self.path.bin_path.as_str(), names[i].as_str()));
            assert forall|k: int| 0 <= k < i + 1 implies (#[trigger] out.deep_view()[k]) == joined(
                bin,
                names.deep_view()[k],
            ) by {
                if k < i {
                    assert(out.deep_view()[k] == before[k]);
                }
            }
            i += 1;
        }
        assert(out.deep_view() =~= paths_at(bin, names.deep_view()));
        Ok(out)
    }
}

/// The paths that the shims `files` put into the bin directory: for each
/// shim its redirector and its pointer file.
pub open spec fn written(files: Seq<ShimFilesView>) -> Seq<Seq<char>> {
    Seq::new(
        2 * files.len(),
        |i: int|
            if i % 2 == 0 {
                files[i / 2].redirector
            } else {
                files[i / 2].pointer
            },
    )
}

/// The names of the files of a directory after files with the names `names`
/// were written into it. A directory holds its files by name, so it is
/// taken as the set of their names.
pub open spec fn after_create(dir: Set<Seq<char>>, names: Seq<Seq<char>>) -> Set<Seq<char>> {
    dir.union(names.to_set())
}

/// The names of the files of a directory after the files with the names
/// `names` were deleted from it one by one; nothing where one of them was
/// missing when its turn came.
pub open spec fn after_remove(dir: Set<Seq<char>>, names: Seq<Seq<char>>) -> Option<
    Set<Seq<char>>,
>
    decreases names.len(),
{
    if names.len() == 0 {
        Some(dir)
    } else if !dir.contains(names[0]) {
        None
    } else {
        after_remove(dir.remove(names[0]), names.drop_first())
    }
}

/// Making the same shims a second time changes nothing: the files are
/// written over.
pub proof fn lemma_create_twice(dir: Set<Seq<char>>, names: Seq<Seq<char>>)
    ensures
        after_create(after_create(dir, names), names) == after_create(dir, names),
{
    assert(after_create(after_create(dir, names), names) =~= after_create(dir, names));
}

/// The files that making the shims of a package writes are the files that
/// removing them deletes, in the same order.
pub proof fn lemma_removed_are_written(bin: Seq<char>, root: Seq<char>, binaries: Seq<Seq<char>>)
    requires
        names_for(binaries) is Ok,
    ensures
        written(shims_at(bin, root, binaries, names_for(binaries)->Ok_0)) == paths_at(
            bin,
            names_for(binaries)->Ok_0,
        ),
{
    lemma_names_for(binaries);
    let names = names_for(binaries)->Ok_0;
    let files = shims_at(bin, root, binaries, names);
    assert forall|i: int| 0 <= i < 2 * binaries.len() implies written(files)[i] == paths_at(
        bin,
        names,
    )[i] by {
        let k = i / 2;
        assert(0 <= k < binaries.len());
        assert(file_name_of(binaries[k]) == Some(names[2 * k]));
        if i % 2 == 0 {
            assert(i == 2 * k);
        } else {
            assert(i == 2 * k + 1);
        }
    }
    assert(written(files) =~= paths_at(bin, names));
}

/// Deleting distinct files that are all there succeeds and leaves none of
/// them.
pub proof fn lemma_after_remove(dir: Set<Seq<char>>, names: Seq<Seq<char>>)
    requires
        names.no_duplicates(),
        forall|i: int| 0 <= i < names.len() ==> dir.contains(#[trigger] names[i]),
    ensures
        after_remove(dir, names) == Some(dir.difference(names.to_set())),
    decreases names.len(),
{
    if names.len() == 0 {
        assert(dir.difference(names.to_set()) =~= dir);
    } else {
        let rest = names.drop_first();
        let next = dir.remove(names[0]);
        assert forall|i: int| 0 <= i < rest.len() implies next.contains(#[trigger] rest[i]) by {
            assert(rest[i] == names[i + 1]);
        }
        assert(rest.no_duplicates()) by {
            assert forall|i: int, j: int|
                0 <= i < rest.len() && 0 <= j < rest.len() && i != j implies rest[i]
                != rest[j] by {
                assert(rest[i] == names[i + 1]);
                assert(rest[j] == names[j + 1]);
            }
        }
        lemma_after_remove(next, rest);
        assert(next.difference(rest.to_set()) =~= dir.difference(names.to_set())) by {
            assert forall|p: Seq<char>|
                names.to_set().contains(p) <==> p == names[0] || rest.to_set().contains(p) by {
                if names.to_set().contains(p) {
                    let i = choose|i: int| 0 <= i < names.len() && names[i] == p;
                    if i > 0 {
                        assert(rest[i - 1] == p);
                    }
                }
                if rest.to_set().contains(p) {
                    let i = choose|i: int| 0 <= i < rest.len() && rest[i] == p;
                    assert(names[i + 1] == p);
                }
                assert(names[0] == names[0]);
            }
        }
    }
}

/// Making the shims of a package and then removing them succeeds and leaves
/// the bin directory without any of the files of the shims, whatever it held
/// before; if it held none of them before, it is as it was.
pub proof fn lemma_create_then_remove(dir: Set<Seq<char>>, binaries: Seq<Seq<char>>)
    requires
        names_for(binaries) is Ok,
    ensures
        after_remove(
            after_create(dir, names_for(binaries)->Ok_0),
            names_for(binaries)->Ok_0,
        ) == Some(dir.difference(names_for(binaries)->Ok_0.to_set())),
        dir.disjoint(names_for(binaries)->Ok_0.to_set()) ==> after_remove(
            after_create(dir, names_for(binaries)->Ok_0),
            names_for(binaries)->Ok_0,
        ) == Some(dir),
{
    lemma_names_for(binaries);
    let names = names_for(binaries)->Ok_0;
    let made = after_create(dir, names);
    assert forall|i: int| 0 <= i < names.len() implies made.contains(#[trigger] names[i]) by {
        assert(names.to_set().contains(names[i]));
    }
    lemma_after_remove(made, names);
    assert(made.difference(names.to_set()) =~= dir.difference(names.to_set()));
    if dir.disjoint(names.to_set()) {
        assert(dir.difference(names.to_set()) =~= dir);
    }
}

} // verus!
