//! File-system paths, held as text and read by the rules of `std::path`.
//!
//! Taking a path apart and putting paths together is left to `std::path`,
//! which goes by the conventions of the platform that the library is built
//! for. What its functions return for joining, for the parent, for the file
//! name and for the equality of two paths is given a name here and is not
//! described further: for a build of the library it depends on the
//! arguments alone. The stem and the extension of a file name are worked
//! out here.

use vstd::prelude::*;
use crate::registry::Registry;

verus! {

/// The path that `std::path::Path::join` makes of `base` and `rest`.
pub uninterp spec fn joined(base: Seq<char>, rest: Seq<char>) -> Seq<char>;

/// The final component of a path, as `std::path::Path::file_name` gives it.
pub uninterp spec fn file_name_of(path: Seq<char>) -> Option<Seq<char>>;

/// The place of the last dot in `name`; -1 if it holds none.
pub open spec fn last_dot(name: Seq<char>) -> int
    decreases name.len(),
{
    if name.len() == 0 {
        -1
    } else if name.last() == '.' {
        name.len() - 1
    } else {
        last_dot(name.drop_last())
    }
}

/// The last dot stands inside the name, if there is one.
pub proof fn lemma_last_dot(name: Seq<char>)
    ensures
        -1 <= last_dot(name) < name.len(),
        last_dot(name) >= 0 ==> name[last_dot(name)] == '.',
    decreases name.len(),
{
    if name.len() > 0 && name.last() != '.' {
        lemma_last_dot(name.drop_last());
    }
}

/// A file name without its extension: what stands before its last dot, or
/// the whole name if it holds no dot or only begins with one.
pub open spec fn stem_of(name: Seq<char>) -> Seq<char> {
    if last_dot(name) <= 0 {
        name
    } else {
        name.take(last_dot(name))
    }
}

/// The extension of a file name: what follows its last dot. There is none
/// if the name holds no dot or only begins with one.
pub open spec fn extension_in(name: Seq<char>) -> Option<Seq<char>> {
    if last_dot(name) <= 0 {
        None
    } else {
        Some(name.skip(last_dot(name) + 1))
    }
}

/// The file name of a path without its extension.
pub open spec fn file_stem_of(path: Seq<char>) -> Option<Seq<char>> {
    match file_name_of(path) {
        Some(name) => Some(stem_of(name)),
        None => None,
    }
}

/// The extension of the file name of a path.
pub open spec fn extension_of(path: Seq<char>) -> Option<Seq<char>> {
    match file_name_of(path) {
        Some(name) => extension_in(name),
        None => None,
    }
}

/// The path without its final component, as `std::path::Path::parent` gives
/// it.
pub uninterp spec fn parent_of(path: Seq<char>) -> Option<Seq<char>>;

/// Whether `std::path::Path`'s `==` holds two different texts for the same
/// path.
pub uninterp spec fn equivalent(a: Seq<char>, b: Seq<char>) -> bool;

/// Whether two texts name the same path: they are the same text, or
/// `std::path` reads them as the same components.
pub open spec fn same_path(a: Seq<char>, b: Seq<char>) -> bool {
    a == b || equivalent(a, b)
}

/// Calls `std::path::Path::join`: `base` extended by `rest`. The result is
/// named, not described.
#[verifier::external_body]
pub(crate) fn join(base: &str, rest: &str) -> (r: String)
    ensures
        r@ == joined(base@, rest@),
{
    std::path::Path::new(base).join(rest).to_string_lossy().into_owned()
}

/// Calls `std::path::Path::file_name`: the final component, if the path has
/// one. The result is named, not described.
#[verifier::external_body]
pub(crate) fn file_name(path: &str) -> (r: Option<String>)
    ensures
        r.deep_view() == file_name_of(path@),
{
    std::path::Path::new(path).file_name().map(|n| n.to_string_lossy().into_owned())
}

/// Where the last dot of `name` stands.
pub(crate) fn find_last_dot(name: &str) -> (r: Option<usize>)
    ensures
        match r {
            Some(at) => last_dot(name@) == at && at < name@.len(),
            None => last_dot(name@) == -1,
        },
{
    let n = name.unicode_len();
    let mut found: Option<usize> = None;
    let mut i: usize = 0;
    assert(name@.take(0).len() == 0);
    while i < n
        invariant
            n == name@.len(),
            i <= n,
            match found {
                Some(at) => last_dot(name@.take(i as int)) == at && at < i,
                None => last_dot(name@.take(i as int)) == -1,
            },
        decreases n - i,
    {
        proof {
            let upto = name@.take(i + 1);
            assert(upto.drop_last() =~= name@.take(i as int));
            assert(upto.last() == name@[i as int]);
        }
        if name.get_char(i) == '.' {
            found = Some(i);
        }
        i += 1;
    }
    assert(name@.take(n as int) =~= name@);
    found
}

/// The file name `name` without its extension.
pub fn stem(name: &str) -> (r: String)
    ensures
        r@ == stem_of(name@),
{
    match find_last_dot(name) {
        Some(at) => {
            if at == 0 {
                name.to_owned()
            } else {
                assert(name@.take(at as int) =~= name@.subrange(0, at as int));
                name.substring_char(0, at).to_owned()
            }
        },
        None => name.to_owned(),
    }
}

/// The extension of the file name `name`.
pub fn name_extension(name: &str) -> (r: Option<String>)
    ensures
        r.deep_view() == extension_in(name@),
{
    match find_last_dot(name) {
        Some(at) => {
            if at == 0 {
                None
            } else {
                let n = name.unicode_len();
                assert(name@.skip(at + 1) =~= name@.subrange(at + 1, n as int));
                Some(name.substring_char(at + 1, n).to_owned())
            }
        },
        None => None,
    }
}

/// The file name of `path` without its extension, if the path has a file
/// name.
pub fn file_stem(path: &str) -> (r: Option<String>)
    ensures
        r.deep_view() == file_stem_of(path@),
{
    match file_name(path) {
        Some(name) => Some(stem(name.as_str())),
        None => None,
    }
}

/// The extension of the file name of `path`.
pub fn extension(path: &str) -> (r: Option<String>)
    ensures
        r.deep_view() == extension_of(path@),
{
    match file_name(path) {
        Some(name) => name_extension(name.as_str()),
        None => None,
    }
}

/// Calls `std::path::Path::parent`: the path without its final component.
/// The result is named, not described.
#[verifier::external_body]
pub(crate) fn parent(path: &str) -> (r: Option<String>)
    ensures
        r.deep_view() == parent_of(path@),
{
    std::path::Path::new(path).parent().map(|n| n.to_string_lossy().into_owned())
}

/// Compares two paths with `std::path::Path`'s `==`, which is reflexive and
/// otherwise named, not described.
#[verifier::external_body]
pub(crate) fn is_same_path(a: &str, b: &str) -> (r: bool)
    ensures
        r == (a@ == b@ || equivalent(a@, b@)),
{
    std::path::Path::new(a) == std::path::Path::new(b)
}

/// The index that a directory listing yields: each path whose extension is
/// `wanted`, filed under its file stem. A later path replaces an earlier one
/// with the same stem.
pub open spec fn indexed(entries: Seq<Seq<char>>, wanted: Seq<char>) -> Map<Seq<char>, Seq<char>>
    decreases entries.len(),
{
    if entries.len() == 0 {
        Map::empty()
    } else {
        let earlier = indexed(entries.drop_last(), wanted);
        let path = entries.last();
        match file_stem_of(path) {
            Some(stem) if extension_of(path) == Some(wanted) => earlier.insert(stem, path),
            _ => earlier,
        }
    }
}

/// Files each path of `entries` that has the extension `wanted` under its
/// file stem.
pub fn index_by_stem(entries: &Vec<String>, wanted: &str) -> (r: Registry<String>)
    ensures
        r@ == indexed(entries.deep_view(), wanted@),
{
    let mut index: Registry<String> = Registry::new();
    let mut i: usize = 0;
    while i < entries.len()
        invariant
            i <= entries@.len(),
            index@ == indexed(entries.deep_view().take(i as int), wanted@),
        decreases entries@.len() - i,
    {
        let path = &entries[i];
        proof {
            let upto = entries.deep_view().take(i + 1);
            assert(upto.drop_last() =~= entries.deep_view().take(i as int));
            assert(upto.last() == path@);
        }
        let ext = extension(path.as_str());
        let stem = file_stem(path.as_str());
        match (ext, stem) {
            (Some(e), Some(s)) => {
                if crate::registry::same_text(e.as_str(), wanted) {
                    index.insert(s.as_str(), path.clone());
                }
            },
            _ => {},
        }
        i += 1;
    }
    assert(entries.deep_view().take(entries@.len() as int) =~= entries.deep_view());
    index
}

} // verus!
