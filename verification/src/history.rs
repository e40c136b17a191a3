//! Version lists in descending order of precedence: what it means to insert
//! into one and to pick from one.

use vstd::prelude::*;
use crate::version::{
    lemma_precedence_transitive, lemma_precedence_trichotomy, lemma_same_precedence_congruent,
    satisfies, VersionView,
};

verus! {

/// Whether each version of `list` has higher precedence than all after it.
pub open spec fn descending(list: Seq<VersionView>) -> bool {
    forall|i: int, j: int| 0 <= i < j < list.len() ==> list[j].precedes(list[i])
}

/// The number of versions at the head of `list` that `version` precedes. In a
/// descending list this is the place at which `version` stands or belongs.
pub open spec fn rank(list: Seq<VersionView>, version: VersionView) -> int
    decreases list.len(),
{
    if list.len() == 0 || !version.precedes(list[0]) {
        0
    } else {
        1 + rank(list.drop_first(), version)
    }
}

/// Whether a descending `list` holds a version of the precedence of
/// `version`.
pub open spec fn present(list: Seq<VersionView>, version: VersionView) -> bool {
    rank(list, version) < list.len() && list[rank(list, version)].same_precedence(version)
}

/// A descending `list` after `version` was added: unchanged if a version of
/// that precedence is in it, else with `version` at its place.
pub open spec fn with_version(list: Seq<VersionView>, version: VersionView) -> Seq<VersionView> {
    if present(list, version) {
        list
    } else {
        list.insert(rank(list, version), version)
    }
}

/// The first place of `list` whose version meets `req`; the length of `list`
/// if none does.
pub open spec fn first_satisfying(list: Seq<VersionView>, req: semver::VersionReq) -> int
    decreases list.len(),
{
    if list.len() == 0 || satisfies(req, list[0]) {
        0
    } else {
        1 + first_satisfying(list.drop_first(), req)
    }
}

/// The versions of a list of downloads.
pub open spec fn versions_in(entries: Seq<(VersionView, Seq<char>)>) -> Seq<VersionView> {
    Seq::new(entries.len(), |i: int| entries[i].0)
}

/// A descending list of downloads after `path` was recorded for `version`:
/// the path of the entry of that precedence is replaced, or a new entry
/// stands at its place.
pub open spec fn recorded(
    entries: Seq<(VersionView, Seq<char>)>,
    version: VersionView,
    path: Seq<char>,
) -> Seq<(VersionView, Seq<char>)> {
    let at = rank(versions_in(entries), version);
    if present(versions_in(entries), version) {
        entries.update(at, (entries[at].0, path))
    } else {
        entries.insert(at, (version, path))
    }
}

/// What `rank` counts: `version` precedes each version before the rank and
/// not the one at it.
pub proof fn lemma_rank(list: Seq<VersionView>, version: VersionView)
    ensures
        0 <= rank(list, version) <= list.len(),
        forall|j: int| 0 <= j < rank(list, version) ==> version.precedes(#[trigger] list[j]),
        rank(list, version) < list.len() ==> !version.precedes(list[rank(list, version)]),
    decreases list.len(),
{
    if list.len() > 0 && version.precedes(list[0]) {
        let rest = list.drop_first();
        lemma_rank(rest, version);
        assert forall|j: int| 0 <= j < rank(list, version) implies version.precedes(
            #[trigger] list[j],
        ) by {
            if j > 0 {
                assert(list[j] == rest[j - 1]);
            }
        }
        if rank(list, version) < list.len() {
            assert(list[rank(list, version)] == rest[rank(rest, version)]);
        }
    }
}

/// A place that meets the two conditions of the rank is the rank.
pub proof fn lemma_rank_found(list: Seq<VersionView>, version: VersionView, at: int)
    requires
        0 <= at <= list.len(),
        forall|j: int| 0 <= j < at ==> version.precedes(#[trigger] list[j]),
        at < list.len() ==> !version.precedes(list[at]),
    ensures
        rank(list, version) == at,
    decreases list.len(),
{
    if at > 0 {
        let rest = list.drop_first();
        assert forall|j: int| 0 <= j < at - 1 implies version.precedes(#[trigger] rest[j]) by {
            assert(rest[j] == list[j + 1]);
        }
        assert(version.precedes(list[0]));
        lemma_rank_found(rest, version, at - 1);
    }
}

/// In a descending list, a version of the precedence of `version` can stand
/// at the rank of `version` only.
pub proof fn lemma_present(list: Seq<VersionView>, version: VersionView)
    requires
        descending(list),
    ensures
        present(list, version) <==> exists|i: int|
            0 <= i < list.len() && (#[trigger] list[i]).same_precedence(version),
        forall|i: int|
            0 <= i < list.len() && (#[trigger] list[i]).same_precedence(version) ==> i == rank(
                list,
                version,
            ),
{
    lemma_rank(list, version);
    let at = rank(list, version);
    assert forall|i: int|
        0 <= i < list.len() && (#[trigger] list[i]).same_precedence(version) implies i == at by {
        lemma_precedence_trichotomy(list[i], version);
        if i < at {
            assert(version.precedes(list[i]));
        } else if i > at {
            assert(list[i].precedes(list[at]));
            lemma_same_precedence_congruent(list[i], version, list[at]);
        }
    }
}

/// Adding a version keeps a descending list descending.
pub proof fn lemma_with_version_descending(list: Seq<VersionView>, version: VersionView)
    requires
        descending(list),
    ensures
        descending(with_version(list, version)),
{
    lemma_rank(list, version);
    let at = rank(list, version);
    if !present(list, version) {
        let out = list.insert(at, version);
        assert forall|i: int, j: int| 0 <= i < j < out.len() implies out[j].precedes(out[i]) by {
            if j == at {
                assert(out[i] == list[i]);
            } else if i == at {
                assert(out[j] == list[j - 1]);
                lemma_precedence_trichotomy(list[at], version);
                if j - 1 > at {
                    assert(list[j - 1].precedes(list[at]));
                    lemma_precedence_transitive(list[j - 1], list[at], version);
                }
            } else {
                let i0 = if i < at { i } else { i - 1 };
                let j0 = if j < at { j } else { j - 1 };
                assert(out[i] == list[i0]);
                assert(out[j] == list[j0]);
            }
        }
    }
}

/// A descending list holds no two versions of the same precedence.
pub proof fn lemma_descending_distinct(list: Seq<VersionView>)
    requires
        descending(list),
    ensures
        forall|i: int, j: int|
            0 <= i < list.len() && 0 <= j < list.len() && i != j ==> !(
            #[trigger] list[i]).same_precedence(#[trigger] list[j]),
{
    assert forall|i: int, j: int|
        0 <= i < list.len() && 0 <= j < list.len() && i != j implies !(
    #[trigger] list[i]).same_precedence(#[trigger] list[j]) by {
        lemma_precedence_trichotomy(list[i], list[j]);
        if i < j {
            assert(list[j].precedes(list[i]));
        } else {
            assert(list[i].precedes(list[j]));
        }
    }
}

/// What `first_satisfying` finds: the version there meets the requirement
/// and none before it does.
pub proof fn lemma_first_satisfying(list: Seq<VersionView>, req: semver::VersionReq)
    ensures
        0 <= first_satisfying(list, req) <= list.len(),
        forall|j: int| 0 <= j < first_satisfying(list, req) ==> !satisfies(req, #[trigger] list[j]),
        first_satisfying(list, req) < list.len() ==> satisfies(
            req,
            list[first_satisfying(list, req)],
        ),
    decreases list.len(),
{
    if list.len() > 0 && !satisfies(req, list[0]) {
        let rest = list.drop_first();
        lemma_first_satisfying(rest, req);
        assert forall|j: int| 0 <= j < first_satisfying(list, req) implies !satisfies(
            req,
            #[trigger] list[j],
        ) by {
            if j > 0 {
                assert(list[j] == rest[j - 1]);
            }
        }
        if first_satisfying(list, req) < list.len() {
            assert(list[first_satisfying(list, req)] == rest[first_satisfying(rest, req)]);
        }
    }
}

/// A place that meets the two conditions of `first_satisfying` is that
/// place.
pub proof fn lemma_first_satisfying_found(
    list: Seq<VersionView>,
    req: semver::VersionReq,
    at: int,
)
    requires
        0 <= at <= list.len(),
        forall|j: int| 0 <= j < at ==> !satisfies(req, #[trigger] list[j]),
        at < list.len() ==> satisfies(req, list[at]),
    ensures
        first_satisfying(list, req) == at,
    decreases list.len(),
{
    if at > 0 {
        let rest = list.drop_first();
        assert forall|j: int| 0 <= j < at - 1 implies !satisfies(req, #[trigger] rest[j]) by {
            assert(rest[j] == list[j + 1]);
        }
        assert(!satisfies(req, list[0]));
        lemma_first_satisfying_found(rest, req, at - 1);
    }
}

/// In a descending list the first version that meets a requirement is the
/// highest that does: every other version that meets it has lower
/// precedence.
pub proof fn lemma_first_satisfying_is_highest(list: Seq<VersionView>, req: semver::VersionReq)
    requires
        descending(list),
    ensures
        forall|j: int|
            0 <= j < list.len() && satisfies(req, #[trigger] list[j]) ==> {
                &&& first_satisfying(list, req) <= j
                &&& (j != first_satisfying(list, req) ==> list[j].precedes(
                    list[first_satisfying(list, req)],
                ))
            },
{
    lemma_first_satisfying(list, req);
}

/// Recording a download keeps the list descending, and changes its versions
/// as adding the version to them does.
pub proof fn lemma_recorded(
    entries: Seq<(VersionView, Seq<char>)>,
    version: VersionView,
    path: Seq<char>,
)
    requires
        descending(versions_in(entries)),
    ensures
        descending(versions_in(recorded(entries, version, path))),
        versions_in(recorded(entries, version, path)) == with_version(versions_in(entries), version),
{
    let list = versions_in(entries);
    lemma_rank(list, version);
    lemma_with_version_descending(list, version);
    assert(versions_in(recorded(entries, version, path)) =~= with_version(list, version));
}

/// Of two paths recorded for one version, one after the other, the second
/// stays.
pub proof fn lemma_recorded_twice(
    entries: Seq<(VersionView, Seq<char>)>,
    version: VersionView,
    first: Seq<char>,
    second: Seq<char>,
)
    requires
        descending(versions_in(entries)),
    ensures
        recorded(recorded(entries, version, first), version, second) == recorded(
            entries,
            version,
            second,
        ),
{
    let list = versions_in(entries);
    let at = rank(list, version);
    lemma_rank(list, version);
    let once = recorded(entries, version, first);
    if present(list, version) {
        assert(versions_in(once) =~= list);
        assert(recorded(once, version, second) =~= recorded(entries, version, second));
    } else {
        assert(versions_in(once) =~= list.insert(at, version));
        lemma_precedence_trichotomy(version, version);
        lemma_rank_found(versions_in(once), version, at);
        assert(recorded(once, version, second) =~= recorded(entries, version, second));
    }
}

/// A list in which each version precedes the one before it is descending.
pub proof fn lemma_descending_by_neighbours(list: Seq<VersionView>)
    requires
        forall|i: int| 0 < i < list.len() ==> (#[trigger] list[i]).precedes(list[i - 1]),
    ensures
        descending(list),
{
    assert forall|i: int, j: int| 0 <= i < j < list.len() implies list[j].precedes(list[i]) by {
        lemma_neighbours_reach(list, i, j);
    }
}

proof fn lemma_neighbours_reach(list: Seq<VersionView>, i: int, j: int)
    requires
        forall|k: int| 0 < k < list.len() ==> (#[trigger] list[k]).precedes(list[k - 1]),
        0 <= i < j < list.len(),
    ensures
        list[j].precedes(list[i]),
    decreases j - i,
{
    assert(list[j].precedes(list[j - 1]));
    if i < j - 1 {
        lemma_neighbours_reach(list, i, j - 1);
        lemma_precedence_transitive(list[j], list[j - 1], list[i]);
    }
}

/// The list of downloads that recording `entries` one after the other
/// makes.
pub open spec fn arranged(entries: Seq<(VersionView, Seq<char>)>) -> Seq<(VersionView, Seq<char>)>
    decreases entries.len(),
{
    if entries.len() == 0 {
        Seq::empty()
    } else {
        recorded(arranged(entries.drop_last()), entries.last().0, entries.last().1)
    }
}

/// Whether no two of `entries` are for versions of the same precedence.
pub open spec fn one_for_each(entries: Seq<(VersionView, Seq<char>)>) -> bool {
    forall|i: int, j: int|
        0 <= i < j < entries.len() ==> !(#[trigger] entries[i]).0.same_precedence(
            (#[trigger] entries[j]).0,
        )
}

/// Recording downloads one after the other gives a descending list.
pub proof fn lemma_arranged_descending(entries: Seq<(VersionView, Seq<char>)>)
    ensures
        descending(versions_in(arranged(entries))),
    decreases entries.len(),
{
    if entries.len() > 0 {
        lemma_arranged_descending(entries.drop_last());
        lemma_recorded(arranged(entries.drop_last()), entries.last().0, entries.last().1);
    }
}

/// Recording downloads for versions of different precedence gives a list
/// that holds exactly these downloads.
pub proof fn lemma_arranged_holds(entries: Seq<(VersionView, Seq<char>)>)
    requires
        one_for_each(entries),
    ensures
        forall|x: (VersionView, Seq<char>)| arranged(entries).contains(x) <==> entries.contains(x),
    decreases entries.len(),
{
    if entries.len() > 0 {
        let front = entries.drop_last();
        let last = entries.last();
        let before = arranged(front);
        assert(one_for_each(front)) by {
            assert forall|i: int, j: int| 0 <= i < j < front.len() implies !(
            #[trigger] front[i]).0.same_precedence((#[trigger] front[j]).0) by {
                assert(front[i] == entries[i]);
                assert(front[j] == entries[j]);
            }
        }
        lemma_arranged_holds(front);
        lemma_arranged_descending(front);
        let list = versions_in(before);
        let at = rank(list, last.0);
        lemma_rank(list, last.0);
        if present(list, last.0) {
            assert(before.contains(before[at]));
            assert(front.contains(before[at]));
            let j = choose|j: int| 0 <= j < front.len() && front[j] == before[at];
            assert(entries[j] == front[j]);
            assert(entries[entries.len() - 1] == last);
            assert(entries[j].0.same_precedence(entries[entries.len() - 1].0));
        }
        let after = before.insert(at, last);
        assert(arranged(entries) == after);
        assert forall|x: (VersionView, Seq<char>)| after.contains(x) <==> entries.contains(x) by {
            if after.contains(x) {
                let k = choose|k: int| 0 <= k < after.len() && after[k] == x;
                if k == at {
                    assert(entries[entries.len() - 1] == x);
                } else {
                    let k0 = if k < at { k } else { k - 1 };
                    assert(before[k0] == x);
                    assert(before.contains(x));
                    assert(front.contains(x));
                    let j = choose|j: int| 0 <= j < front.len() && front[j] == x;
                    assert(entries[j] == x);
                }
            }
            if entries.contains(x) {
                let j = choose|j: int| 0 <= j < entries.len() && entries[j] == x;
                if j == entries.len() - 1 {
                    assert(after[at] == x);
                } else {
                    assert(front[j] == x);
                    assert(front.contains(x));
                    assert(before.contains(x));
                    let k = choose|k: int| 0 <= k < before.len() && before[k] == x;
                    let k1 = if k < at { k } else { k + 1 };
                    assert(after[k1] == x);
                }
            }
        }
    }
}

/// Two descending lists that hold the same downloads are the same list.
pub proof fn lemma_descending_unique(
    a: Seq<(VersionView, Seq<char>)>,
    b: Seq<(VersionView, Seq<char>)>,
)
    requires
        descending(versions_in(a)),
        descending(versions_in(b)),
        forall|x: (VersionView, Seq<char>)| a.contains(x) <==> b.contains(x),
    ensures
        a == b,
    decreases a.len(),
{
    if a.len() == 0 {
        if b.len() > 0 {
            assert(b.contains(b[0]));
        }
        assert(a =~= b);
    } else {
        assert(a.contains(a[0]));
        assert(b.contains(a[0]));
        let j = choose|j: int| 0 <= j < b.len() && b[j] == a[0];
        assert(b.contains(b[0]));
        assert(a.contains(b[0]));
        let i = choose|i: int| 0 <= i < a.len() && a[i] == b[0];
        lemma_precedence_trichotomy(a[0].0, b[0].0);
        if j > 0 {
            assert(versions_in(b)[j].precedes(versions_in(b)[0]));
            if i > 0 {
                assert(versions_in(a)[i].precedes(versions_in(a)[0]));
            }
        }
        assert(a[0] == b[0]);
        let x = a.drop_first();
        let y = b.drop_first();
        assert(versions_in(x) =~= versions_in(a).drop_first());
        assert(versions_in(y) =~= versions_in(b).drop_first());
        assert(descending(versions_in(x))) by {
            assert forall|m: int, n: int| 0 <= m < n < x.len() implies versions_in(x)[n].precedes(
                versions_in(x)[m],
            ) by {
                assert(versions_in(a)[n + 1].precedes(versions_in(a)[m + 1]));
            }
        }
        assert(descending(versions_in(y))) by {
            assert forall|m: int, n: int| 0 <= m < n < y.len() implies versions_in(y)[n].precedes(
                versions_in(y)[m],
            ) by {
                assert(versions_in(b)[n + 1].precedes(versions_in(b)[m + 1]));
            }
        }
        assert forall|e: (VersionView, Seq<char>)| x.contains(e) <==> y.contains(e) by {
            lemma_precedence_trichotomy(e.0, e.0);
            if x.contains(e) {
                let m = choose|m: int| 0 <= m < x.len() && x[m] == e;
                assert(a[m + 1] == e);
                assert(a.contains(e));
                assert(b.contains(e));
                let n = choose|n: int| 0 <= n < b.len() && b[n] == e;
                if n == 0 {
                    assert(versions_in(a)[m + 1].precedes(versions_in(a)[0]));
                } else {
                    assert(y[n - 1] == e);
                }
            }
            if y.contains(e) {
                let n = choose|n: int| 0 <= n < y.len() && y[n] == e;
                assert(b[n + 1] == e);
                assert(b.contains(e));
                assert(a.contains(e));
                let m = choose|m: int| 0 <= m < a.len() && a[m] == e;
                if m == 0 {
                    assert(versions_in(b)[n + 1].precedes(versions_in(b)[0]));
                } else {
                    assert(x[m - 1] == e);
                }
            }
        }
        lemma_descending_unique(x, y);
        assert(a =~= seq![a[0]] + x);
        assert(b =~= seq![b[0]] + y);
    }
}

/// A descending list of downloads comes back when its entries are recorded
/// one after the other, in whatever order.
pub proof fn lemma_arranged_restores(
    entries: Seq<(VersionView, Seq<char>)>,
    list: Seq<(VersionView, Seq<char>)>,
)
    requires
        descending(versions_in(list)),
        one_for_each(entries),
        forall|x: (VersionView, Seq<char>)| entries.contains(x) <==> list.contains(x),
    ensures
        arranged(entries) == list,
{
    lemma_arranged_descending(entries);
    lemma_arranged_holds(entries);
    lemma_descending_unique(arranged(entries), list);
}

} // verus!
