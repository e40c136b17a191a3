//! Semantic versions as plain data, ordered by precedence, and the
//! requirements that select among them. Comparing two versions and matching
//! a version against a requirement are left to the `semver` crate.

use vstd::prelude::*;

verus! {

/// One dot-separated part of a pre-release or build tag.
#[derive(Debug, PartialEq, Eq)]
pub enum Identifier {
    /// A part made of digits only.
    Numeric(u64),
    /// A part that holds letters or hyphens.
    AlphaNumeric(String),
}

/// The mathematical value of an [`Identifier`].
pub enum IdentifierView {
    Numeric(u64),
    AlphaNumeric(Seq<char>),
}

impl View for Identifier {
    type V = IdentifierView;

    open spec fn view(&self) -> IdentifierView {
        match self {
            Identifier::Numeric(n) => IdentifierView::Numeric(*n),
            Identifier::AlphaNumeric(s) => IdentifierView::AlphaNumeric(s@),
        }
    }
}

/// A semantic version: three numbers, a pre-release tag and build metadata.
#[derive(Debug, PartialEq, Eq)]
pub struct Version {
    pub major: u64,
    pub minor: u64,
    pub patch: u64,
    pub pre: Vec<Identifier>,
    pub build: Vec<Identifier>,
}

/// The mathematical value of a [`Version`].
pub struct VersionView {
    pub major: u64,
    pub minor: u64,
    pub patch: u64,
    pub pre: Seq<IdentifierView>,
    pub build: Seq<IdentifierView>,
}

impl View for Version {
    type V = VersionView;

    open spec fn view(&self) -> VersionView {
        VersionView {
            major: self.major,
            minor: self.minor,
            patch: self.patch,
            pre: Seq::new(self.pre@.len(), |i: int| self.pre@[i]@),
            build: Seq::new(self.build@.len(), |i: int| self.build@[i]@),
        }
    }
}

impl DeepView for Identifier {
    type V = IdentifierView;

    open spec fn deep_view(&self) -> IdentifierView {
        self@
    }
}

impl DeepView for Version {
    type V = VersionView;

    open spec fn deep_view(&self) -> VersionView {
        self@
    }
}

impl Clone for Identifier {
    fn clone(&self) -> (r: Self)
        ensures
            r@ == self@,
    {
        match self {
            Identifier::Numeric(n) => Identifier::Numeric(*n),
            Identifier::AlphaNumeric(s) => Identifier::AlphaNumeric(s.clone()),
        }
    }
}

/// A copy of a list of identifiers.
fn clone_tag(tag: &Vec<Identifier>) -> (r: Vec<Identifier>)
    ensures
        r@.len() == tag@.len(),
        forall|i: int| 0 <= i < tag@.len() ==> r@[i]@ == tag@[i]@,
{
    let mut out: Vec<Identifier> = Vec::new();
    let mut i: usize = 0;
    while i < tag.len()
        invariant
            i <= tag@.len(),
            out@.len() == i,
            forall|j: int| 0 <= j < i ==> out@[j]@ == tag@[j]@,
        decreases tag@.len() - i,
    {
        out.push(tag[i].clone());
        i += 1;
    }
    out
}

impl Clone for Version {
    fn clone(&self) -> (r: Self)
        ensures
            r@ == self@,
    {
        let r = Version {
            major: self.major,
            minor: self.minor,
            patch: self.patch,
            pre: clone_tag(&self.pre),
            build: clone_tag(&self.build),
        };
        assert(r@.pre =~= self@.pre);
        assert(r@.build =~= self@.build);
        r
    }
}

impl Version {
    /// The version `major.minor.patch`, with no pre-release tag and no build
    /// metadata.
    pub fn new(major: u64, minor: u64, patch: u64) -> (r: Version)
        ensures
            r@ == (VersionView {
                major,
                minor,
                patch,
                pre: Seq::<IdentifierView>::empty(),
                build: Seq::<IdentifierView>::empty(),
            }),
    {
        let r = Version { major, minor, patch, pre: Vec::new(), build: Vec::new() };
        assert(r@.pre =~= Seq::<IdentifierView>::empty());
        assert(r@.build =~= Seq::<IdentifierView>::empty());
        r
    }

    /// Whether `self` has lower precedence than `other`.
    pub fn precedes(&self, other: &Version) -> (r: bool)
        ensures
            r == self@.precedes(other@),
    {
        version_precedes(self, other)
    }

    /// Whether `self` and `other` differ in nothing but build metadata.
    pub fn same_precedence(&self, other: &Version) -> (r: bool)
        ensures
            r == self@.same_precedence(other@),
    {
        proof {
            lemma_precedence_trichotomy(self@, other@);
        }
        !version_precedes(self, other) && !version_precedes(other, self)
    }

    /// Whether `self` meets the requirement `req`.
    pub fn satisfies(&self, req: &semver::VersionReq) -> (r: bool)
        ensures
            r == satisfies(*req, self@),
    {
        requirement_matches(req, self)
    }
}

/// Strict lexicographic order of two texts, character by character.
pub open spec fn text_before(a: Seq<char>, b: Seq<char>) -> bool
    decreases a.len(),
{
    if b.len() == 0 {
        false
    } else if a.len() == 0 {
        true
    } else if a[0] != b[0] {
        (a[0] as u32) < (b[0] as u32)
    } else {
        text_before(a.drop_first(), b.drop_first())
    }
}

/// Strict order of two identifiers: numbers come before texts, numbers are
/// ordered by value and texts lexicographically.
pub open spec fn identifier_before(a: IdentifierView, b: IdentifierView) -> bool {
    match (a, b) {
        (IdentifierView::Numeric(x), IdentifierView::Numeric(y)) => x < y,
        (IdentifierView::Numeric(_), IdentifierView::AlphaNumeric(_)) => true,
        (IdentifierView::AlphaNumeric(_), IdentifierView::Numeric(_)) => false,
        (IdentifierView::AlphaNumeric(s), IdentifierView::AlphaNumeric(t)) => text_before(s, t),
    }
}

/// Strict lexicographic order of two identifier lists.
pub open spec fn tag_before(a: Seq<IdentifierView>, b: Seq<IdentifierView>) -> bool
    decreases a.len(),
{
    if b.len() == 0 {
        false
    } else if a.len() == 0 {
        true
    } else if a[0] != b[0] {
        identifier_before(a[0], b[0])
    } else {
        tag_before(a.drop_first(), b.drop_first())
    }
}

impl VersionView {
    /// Whether `self` has lower precedence than `other`. Build metadata takes
    /// no part; a version with a pre-release tag comes before the same
    /// version without one.
    pub open spec fn precedes(self, other: VersionView) -> bool {
        if self.major != other.major {
            self.major < other.major
        } else if self.minor != other.minor {
            self.minor < other.minor
        } else if self.patch != other.patch {
            self.patch < other.patch
        } else if self.pre.len() == 0 {
            false
        } else if other.pre.len() == 0 {
            true
        } else {
            tag_before(self.pre, other.pre)
        }
    }

    /// Whether two versions have the same precedence.
    pub open spec fn same_precedence(self, other: VersionView) -> bool {
        &&& self.major == other.major
        &&& self.minor == other.minor
        &&& self.patch == other.patch
        &&& self.pre == other.pre
    }
}

/// Compares two versions with `<` of `semver::Version`, which goes by its
/// `Ord::cmp`. Nothing here proves the contract; it restates what `cmp` does:
/// major, minor and patch are compared as numbers; if they are equal, a
/// version without a pre-release tag ranks above one with a tag, and two
/// tags are compared as lists of identifiers, where a number ranks below a
/// text, numbers go by value and texts by their characters. Build metadata
/// is not looked at.
#[verifier::external_body]
fn version_precedes(a: &Version, b: &Version) -> (r: bool)
    ensures
        r == a@.precedes(b@),
{
    let ident = |i: &Identifier| match i {
        Identifier::Numeric(n) => semver::Identifier::Numeric(*n),
        Identifier::AlphaNumeric(s) => semver::Identifier::AlphaNumeric(s.clone()),
    };
    let x = semver::Version { major: a.major, minor: a.minor, patch: a.patch,
        pre: a.pre.iter().map(ident).collect(), build: a.build.iter().map(ident).collect() };
    let y = semver::Version { major: b.major, minor: b.minor, patch: b.patch,
        pre: b.pre.iter().map(ident).collect(), build: b.build.iter().map(ident).collect() };
    x < y
}

/// `semver::VersionReq`, a requirement on versions such as `^2.0.0`. A value
/// of it is carried through and handed to `semver`, never looked into.
#[verifier::external_type_specification]
#[verifier::external_body]
pub struct ExVersionReq(semver::VersionReq);

/// Whether a version meets a requirement: what `semver::VersionReq::matches`
/// answers for the two.
pub uninterp spec fn satisfies(req: semver::VersionReq, version: VersionView) -> bool;

/// Calls `semver::VersionReq::matches` on `req` and `version`. The answer is
/// named, not described: it depends on the two values alone.
#[verifier::external_body]
fn requirement_matches(req: &semver::VersionReq, version: &Version) -> (r: bool)
    ensures
        r == satisfies(*req, version@),
{
    let ident = |i: &Identifier| match i {
        Identifier::Numeric(n) => semver::Identifier::Numeric(*n),
        Identifier::AlphaNumeric(s) => semver::Identifier::AlphaNumeric(s.clone()),
    };
    let v = semver::Version { major: version.major, minor: version.minor, patch: version.patch,
        pre: version.pre.iter().map(ident).collect(),
        build: version.build.iter().map(ident).collect() };
    req.matches(&v)
}

/// Of two different texts exactly one comes before the other, and no text
/// comes before itself.
pub proof fn lemma_text_order(a: Seq<char>, b: Seq<char>)
    ensures
        a != b ==> (text_before(a, b) <==> !text_before(b, a)),
        a == b ==> !text_before(a, b),
    decreases a.len(),
{
    if a.len() > 0 && b.len() > 0 {
        if a[0] != b[0] {
            vstd::utf8::char_u32_cast(a[0], a[0] as u32);
            vstd::utf8::char_u32_cast(b[0], b[0] as u32);
        }
        if a[0] == b[0] {
            lemma_text_order(a.drop_first(), b.drop_first());
            if a.drop_first() == b.drop_first() {
                assert(a =~= seq![a[0]] + a.drop_first());
                assert(b =~= seq![b[0]] + b.drop_first());
            }
        }
    } else if a.len() == 0 && b.len() == 0 {
        assert(a =~= b);
    }
}

/// The order of texts is transitive.
pub proof fn lemma_text_transitive(a: Seq<char>, b: Seq<char>, c: Seq<char>)
    requires
        text_before(a, b),
        text_before(b, c),
    ensures
        text_before(a, c),
    decreases a.len(),
{
    if a.len() > 0 {
        if a[0] == b[0] && b[0] == c[0] {
            lemma_text_transitive(a.drop_first(), b.drop_first(), c.drop_first());
        }
    }
}

/// Of two different identifiers exactly one comes before the other, and no
/// identifier comes before itself.
pub proof fn lemma_identifier_order(a: IdentifierView, b: IdentifierView)
    ensures
        a != b ==> (identifier_before(a, b) <==> !identifier_before(b, a)),
        a == b ==> !identifier_before(a, b),
{
    match (a, b) {
        (IdentifierView::AlphaNumeric(s), IdentifierView::AlphaNumeric(t)) => {
            lemma_text_order(s, t);
        },
        _ => {},
    }
}

/// The order of identifiers is transitive.
pub proof fn lemma_identifier_transitive(a: IdentifierView, b: IdentifierView, c: IdentifierView)
    requires
        identifier_before(a, b),
        identifier_before(b, c),
    ensures
        identifier_before(a, c),
{
    match (a, b, c) {
        (
            IdentifierView::AlphaNumeric(s),
            IdentifierView::AlphaNumeric(t),
            IdentifierView::AlphaNumeric(u),
        ) => {
            lemma_text_transitive(s, t, u);
        },
        _ => {},
    }
}

/// Of two different tags exactly one comes before the other, and no tag comes
/// before itself.
pub proof fn lemma_tag_order(a: Seq<IdentifierView>, b: Seq<IdentifierView>)
    ensures
        a != b ==> (tag_before(a, b) <==> !tag_before(b, a)),
        a == b ==> !tag_before(a, b),
    decreases a.len(),
{
    if a.len() > 0 && b.len() > 0 {
        if a[0] == b[0] {
            lemma_tag_order(a.drop_first(), b.drop_first());
            if a.drop_first() == b.drop_first() {
                assert(a =~= seq![a[0]] + a.drop_first());
                assert(b =~= seq![b[0]] + b.drop_first());
            }
        } else {
            lemma_identifier_order(a[0], b[0]);
        }
    } else if a.len() == 0 && b.len() == 0 {
        assert(a =~= b);
    }
}

/// The order of tags is transitive.
pub proof fn lemma_tag_transitive(
    a: Seq<IdentifierView>,
    b: Seq<IdentifierView>,
    c: Seq<IdentifierView>,
)
    requires
        tag_before(a, b),
        tag_before(b, c),
    ensures
        tag_before(a, c),
    decreases a.len(),
{
    if a.len() > 0 {
        if a[0] == b[0] && b[0] == c[0] {
            lemma_tag_transitive(a.drop_first(), b.drop_first(), c.drop_first());
        } else if a[0] != b[0] && b[0] != c[0] {
            lemma_identifier_transitive(a[0], b[0], c[0]);
            lemma_identifier_order(a[0], c[0]);
        }
    }
}

/// Precedence is a strict total order on versions that differ in more than
/// their build metadata: of two versions exactly one of "lower", "same" and
/// "higher" holds.
pub proof fn lemma_precedence_trichotomy(a: VersionView, b: VersionView)
    ensures
        a.same_precedence(b) <==> !a.precedes(b) && !b.precedes(a),
        !(a.precedes(b) && b.precedes(a)),
        a.same_precedence(b) == b.same_precedence(a),
{
    lemma_tag_order(a.pre, b.pre);
    lemma_tag_order(b.pre, a.pre);
    if a.pre.len() == 0 && b.pre.len() == 0 {
        assert(a.pre =~= b.pre);
    }
}

/// Precedence is transitive.
pub proof fn lemma_precedence_transitive(a: VersionView, b: VersionView, c: VersionView)
    requires
        a.precedes(b),
        b.precedes(c),
    ensures
        a.precedes(c),
{
    if a.major == b.major && b.major == c.major && a.minor == b.minor && b.minor == c.minor
        && a.patch == b.patch && b.patch == c.patch {
        if c.pre.len() != 0 {
            lemma_tag_transitive(a.pre, b.pre, c.pre);
        }
    }
}

/// Versions of the same precedence stand in the same relation to every other
/// version.
pub proof fn lemma_same_precedence_congruent(a: VersionView, b: VersionView, c: VersionView)
    requires
        a.same_precedence(b),
    ensures
        a.precedes(c) == b.precedes(c),
        c.precedes(a) == c.precedes(b),
        a.same_precedence(c) == b.same_precedence(c),
{
}

} // verus!
