//! The command search path and the commands that the program has run for it.

use vstd::prelude::*;
use crate::path::{is_same_path, same_path};

verus! {

/// The texts of `parts` with `separator` between each two neighbours.
pub open spec fn join_with(parts: Seq<Seq<char>>, separator: Seq<char>) -> Seq<char>
    decreases parts.len(),
{
    if parts.len() == 0 {
        Seq::empty()
    } else if parts.len() == 1 {
        parts[0]
    } else {
        join_with(parts.drop_last(), separator) + separator + parts.last()
    }
}

/// Where in `paths` the first entry that names the same path as `path`
/// stands; the length of `paths` if there is none.
pub open spec fn first_match(paths: Seq<Seq<char>>, path: Seq<char>) -> int
    decreases paths.len(),
{
    if paths.len() == 0 {
        0
    } else if same_path(paths[0], path) {
        0
    } else {
        1 + first_match(paths.drop_first(), path)
    }
}

/// Whether some entry of `paths` names the same path as `path`.
pub open spec fn lists(paths: Seq<Seq<char>>, path: Seq<char>) -> bool {
    exists|i: int| 0 <= i < paths.len() && same_path(#[trigger] paths[i], path)
}

/// `first_match` is the least index of a matching entry.
pub proof fn lemma_first_match(paths: Seq<Seq<char>>, path: Seq<char>)
    ensures
        0 <= first_match(paths, path) <= paths.len(),
        forall|i: int| 0 <= i < first_match(paths, path) ==> !same_path(#[trigger] paths[i], path),
        first_match(paths, path) < paths.len() ==> same_path(
            paths[first_match(paths, path)],
            path,
        ),
        lists(paths, path) <==> first_match(paths, path) < paths.len(),
    decreases paths.len(),
{
    if paths.len() > 0 && !same_path(paths[0], path) {
        let rest = paths.drop_first();
        lemma_first_match(rest, path);
        let k = first_match(rest, path);
        assert forall|i: int| 0 <= i < 1 + k implies !same_path(#[trigger] paths[i], path) by {
            if i > 0 {
                assert(paths[i] == rest[i - 1]);
            }
        }
        if k < rest.len() {
            assert(paths[1 + k] == rest[k]);
        }
    }
}

/// A program to start, the arguments to hand it, and what to do with its
/// output.
#[derive(Debug)]
pub struct Invocation {
    /// The program.
    pub exe: String,
    /// Its arguments, in order.
    pub args: Vec<String>,
    /// Whether standard output and standard error are captured, not shown.
    pub silent: bool,
    /// Whether the captured standard output is the result of the run.
    pub read: bool,
}

/// The mathematical value of an [`Invocation`].
pub struct InvocationView {
    pub exe: Seq<char>,
    pub args: Seq<Seq<char>>,
    pub silent: bool,
    pub read: bool,
}

impl View for Invocation {
    type V = InvocationView;

    open spec fn view(&self) -> InvocationView {
        InvocationView {
            exe: self.exe@,
            args: self.args.deep_view(),
            silent: self.silent,
            read: self.read,
        }
    }
}

/// A copy of a list of texts.
fn clone_texts(texts: &Vec<String>) -> (r: Vec<String>)
    ensures
        r.deep_view() == texts.deep_view(),
{
    let mut out: Vec<String> = Vec::new();
    let mut i: usize = 0;
    while i < texts.len()
        invariant
            i <= texts@.len(),
            out@.len() == i,
            forall|j: int| 0 <= j < i ==> out@[j]@ == texts@[j]@,
        decreases texts@.len() - i,
    {
        out.push(texts[i].clone());
        i += 1;
    }
    assert(out.deep_view() =~= texts.deep_view());
    out
}

/// The command that runs `exe` with `args`, its output shown to the user.
pub fn cmd_run(exe: &str, args: &Vec<String>) -> (r: Invocation)
    ensures
        r@ == (InvocationView {
            exe: exe@,
            args: args.deep_view(),
            silent: false,
            read: false,
        }),
{
    Invocation { exe: exe.to_owned(), args: clone_texts(args), silent: false, read: false }
}

/// The command that runs `exe` with `args`, its output captured and
/// dropped.
pub fn cmd_run_silent(exe: &str, args: &Vec<String>) -> (r: Invocation)
    ensures
        r@ == (InvocationView {
            exe: exe@,
            args: args.deep_view(),
            silent: true,
            read: false,
        }),
{
    Invocation { exe: exe.to_owned(), args: clone_texts(args), silent: true, read: false }
}

/// The command that runs `exe` with `args` and gives what it prints as the
/// result, nothing shown.
pub fn cmd_read_silent(exe: &str, args: &Vec<String>) -> (r: Invocation)
    ensures
        r@ == (InvocationView {
            exe: exe@,
            args: args.deep_view(),
            silent: true,
            read: true,
        }),
{
    Invocation { exe: exe.to_owned(), args: clone_texts(args), silent: true, read: true }
}

/// The directories in which the shell looks for commands, in order.
#[derive(Debug)]
pub struct WinPath {
    paths: Vec<String>,
}

impl View for WinPath {
    type V = Seq<Seq<char>>;

    closed spec fn view(&self) -> Seq<Seq<char>> {
        self.paths.deep_view()
    }
}

impl WinPath {
    /// The search path that holds `paths`, in their order.
    pub fn new(paths: Vec<String>) -> (r: WinPath)
        ensures
            r@ == paths.deep_view(),
    {
        WinPath { paths }
    }

    /// The entries, in order.
    pub fn current(&self) -> (r: &Vec<String>)
        ensures
            r.deep_view() == self@,
    {
        &self.paths
    }

    /// Where the first entry that names `path` stands.
    fn position(&self, path: &str) -> (r: usize)
        ensures
            r == first_match(self@, path@),
    {
        let mut i: usize = 0;
        proof {
            lemma_first_match(self@, path@);
        }
        while i < self.paths.len()
            invariant
                i <= self.paths@.len(),
                self@ == self.paths.deep_view(),
                i <= first_match(self@, path@) <= self@.len(),
                forall|j: int|
                    0 <= j < first_match(self@, path@) ==> !same_path(#[trigger] self@[j], path@),
                first_match(self@, path@) < self@.len() ==> same_path(
                    self@[first_match(self@, path@)],
                    path@,
                ),
            decreases self.paths@.len() - i,
        {
            assert(self@[i as int] == self.paths@[i as int]@);
            if is_same_path(self.paths[i].as_str(), path) {
                return i;
            }
            i += 1;
        }
        i
    }

    /// Whether `path` is on the search path.
    pub fn contains(&self, path: &str) -> (r: bool)
        ensures
            r == lists(self@, path@),
    {
        proof {
            lemma_first_match(self@, path@);
        }
        self.position(path) < self.paths.len()
    }

    /// Puts `path` at the end of the search path.
    pub fn append(&mut self, path: &str)
        ensures
            final(self)@ == old(self)@.push(path@),
    {
        self.paths.push(path.to_owned());
        assert(self.paths.deep_view() =~= old(self).paths.deep_view().push(path@));
    }

    /// Takes the first entry that names `path` off the search path; without
    /// such an entry nothing changes.
    pub fn remove(&mut self, path: &str)
        ensures
            lists(old(self)@, path@) ==> final(self)@ == old(self)@.remove(
                first_match(old(self)@, path@),
            ),
            !lists(old(self)@, path@) ==> final(self)@ == old(self)@,
    {
        proof {
            lemma_first_match(self@, path@);
        }
        let at = self.position(path);
        if at < self.paths.len() {
            self.paths.remove(at);
            assert(self.paths.deep_view() =~= old(self).paths.deep_view().remove(at as int));
        }
    }

    /// The entries joined by `;`, as the durable store takes them.
    pub fn joined(&self) -> (r: String)
        ensures
            r@ == join_with(self@, ";"@),
    {
        let mut text = String::new();
        let mut i: usize = 0;
        while i < self.paths.len()
            invariant
                i <= self.paths@.len(),
                text@ == join_with(self.paths.deep_view().take(i as int), ";"@),
            decreases self.paths@.len() - i,
        {
            proof {
                let upto = self.paths.deep_view().take(i + 1);
                assert(upto.drop_last() =~= self.paths.deep_view().take(i as int));
                assert(upto.last() == self.paths@[i as int]@);
                if i == 0 {
                    assert(text@ + self.paths@[0]@ =~= self.paths@[0]@);
                }
            }
            if i > 0 {
                text.append(";");
            }
            text.append(self.paths[i].as_str());
            i += 1;
        }
        assert(self.paths.deep_view().take(self.paths@.len() as int) =~= self.paths.deep_view());
        text
    }

    /// The command that writes the search path to the durable store of the
    /// user's environment: `setx PATH` with the joined entries.
    pub fn save(&self) -> (r: Invocation)
        ensures
            r@ == (InvocationView {
                exe: "setx"@,
                args: seq!["PATH"@, join_with(self@, ";"@)],
                silent: true,
                read: false,
            }),
    {
        let mut args: Vec<String> = Vec::new();
        args.push("PATH".to_owned());
        args.push(self.joined());
        assert(args.deep_view() =~= seq!["PATH"@, join_with(self@, ";"@)]);
        cmd_run_silent("setx", &args)
    }
}

/// Whether `c` has the Unicode property `White_Space`: the controls from
/// tab to carriage return, the space, next line, the no-break spaces, the
/// Ogham space mark, the spaces from en quad to hair space, the line and the
/// paragraph separator, the medium mathematical space and the ideographic
/// space.
pub open spec fn whitespace(c: char) -> bool {
    let n = c as u32;
    ||| 0x09 <= n <= 0x0D
    ||| n == 0x20
    ||| n == 0x85
    ||| n == 0xA0
    ||| n == 0x1680
    ||| 0x2000 <= n <= 0x200A
    ||| n == 0x2028
    ||| n == 0x2029
    ||| n == 0x202F
    ||| n == 0x205F
    ||| n == 0x3000
}

/// Calls `char::is_whitespace`, which std documents as: whether the
/// character has the property `White_Space` of the Unicode character
/// database. Nothing here proves that the property is the set above.
#[verifier::external_body]
fn is_whitespace(c: char) -> (r: bool)
    ensures
        r == whitespace(c),
{
    c.is_whitespace()
}

/// The number of characters before the first whitespace of `text`.
pub open spec fn word_len(text: Seq<char>) -> nat
    decreases text.len(),
{
    if text.len() == 0 || whitespace(text[0]) {
        0
    } else {
        1 + word_len(text.drop_first())
    }
}

/// The words of `text`: its longest runs of characters that are not
/// whitespace, in order.
pub open spec fn words(text: Seq<char>) -> Seq<Seq<char>>
    decreases text.len(),
    via words_decreases
{
    if text.len() == 0 {
        Seq::empty()
    } else if whitespace(text[0]) {
        words(text.drop_first())
    } else {
        seq![text.take(word_len(text) as int)] + words(text.skip(word_len(text) as int))
    }
}

#[via_fn]
proof fn words_decreases(text: Seq<char>) {
    lemma_word_len(text);
}

/// A word ends where the text ends or whitespace stands, and holds no
/// whitespace.
pub proof fn lemma_word_len(text: Seq<char>)
    ensures
        word_len(text) <= text.len(),
        text.len() > 0 && !whitespace(text[0]) ==> word_len(text) > 0,
        forall|k: int| 0 <= k < word_len(text) ==> !whitespace(#[trigger] text[k]),
        word_len(text) < text.len() ==> whitespace(text[word_len(text) as int]),
    decreases text.len(),
{
    if text.len() > 0 && !whitespace(text[0]) {
        let rest = text.drop_first();
        lemma_word_len(rest);
        assert forall|k: int| 0 <= k < word_len(text) implies !whitespace(#[trigger] text[k]) by {
            if k > 0 {
                assert(text[k] == rest[k - 1]);
            }
        }
        if word_len(text) < text.len() {
            assert(text[word_len(text) as int] == rest[word_len(rest) as int]);
        }
    }
}

/// A run without whitespace that ends at whitespace or at the end of the
/// text is the first word.
proof fn lemma_word_found(text: Seq<char>, m: int)
    requires
        0 <= m <= text.len(),
        forall|k: int| 0 <= k < m ==> !whitespace(#[trigger] text[k]),
        m < text.len() ==> whitespace(text[m]),
    ensures
        word_len(text) == m,
    decreases text.len(),
{
    if m > 0 {
        let rest = text.drop_first();
        assert forall|k: int| 0 <= k < m - 1 implies !whitespace(#[trigger] rest[k]) by {
            assert(rest[k] == text[k + 1]);
        }
        lemma_word_found(rest, m - 1);
    }
}

/// Splits `text` into its words.
pub fn split_words(text: &str) -> (r: Vec<String>)
    ensures
        r.deep_view() == words(text@),
{
    let n = text.unicode_len();
    let mut out: Vec<String> = Vec::new();
    let mut i: usize = 0;
    assert(text@.skip(0) =~= text@);
    assert(out.deep_view() + words(text@) =~= words(text@));
    while i < n
        invariant
            n == text@.len(),
            i <= n,
            out.deep_view() + words(text@.skip(i as int)) == words(text@),
        decreases n - i,
    {
        let ghost tail = text@.skip(i as int);
        let c = text.get_char(i);
        assert(tail[0] == c);
        if is_whitespace(c) {
            assert(tail.drop_first() =~= text@.skip(i + 1));
            i += 1;
        } else {
            let mut j: usize = i + 1;
            loop
                invariant_except_break
                    n == text@.len(),
                    i < j <= n,
                    forall|k: int| i <= k < j ==> !whitespace(#[trigger] text@[k]),
                ensures
                    i < j <= n,
                    forall|k: int| i <= k < j ==> !whitespace(#[trigger] text@[k]),
                    j < n ==> whitespace(text@[j as int]),
                decreases n - j,
            {
                if j >= n {
                    break ;
                }
                let d = text.get_char(j);
                if is_whitespace(d) {
                    break ;
                }
                j += 1;
            }
            proof {
                assert forall|k: int| 0 <= k < j - i implies !whitespace(#[trigger] tail[k]) by {
                    assert(tail[k] == text@[i + k]);
                }
                lemma_word_found(tail, j - i);
                assert(tail.take(j - i) =~= text@.subrange(i as int, j as int));
                assert(tail.skip(j - i) =~= text@.skip(j as int));
            }
            let word = text.substring_char(i, j);
            let ghost before = out.deep_view();
            out.push(word.to_owned());
            assert(out.deep_view() =~= before.push(word@));
            assert(before.push(word@) + words(text@.skip(j as int)) =~= before + (seq![word@]
                + words(text@.skip(j as int))));
            i = j;
        }
    }
    assert(words(text@.skip(n as int)) =~= Seq::<Seq<char>>::empty());
    assert(out.deep_view() + Seq::<Seq<char>>::empty() =~= out.deep_view());
    out
}

/// A program and its arguments, as one line of text names them.
#[derive(Debug)]
pub struct Cmd {
    /// The program.
    pub exe: String,
    /// Its arguments, in order.
    pub args: Vec<String>,
}

/// The mathematical value of a [`Cmd`].
pub struct CmdView {
    pub exe: Seq<char>,
    pub args: Seq<Seq<char>>,
}

impl View for Cmd {
    type V = CmdView;

    open spec fn view(&self) -> CmdView {
        CmdView { exe: self.exe@, args: self.args.deep_view() }
    }
}

/// The command that a line of text names: its first word is the program, the
/// words after it are the arguments. A line without a word names none.
pub open spec fn parsed(line: Seq<char>) -> Option<CmdView> {
    if words(line).len() == 0 {
        None
    } else {
        Some(CmdView { exe: words(line)[0], args: words(line).drop_first() })
    }
}

impl Cmd {
    /// Reads a command from a line of text.
    pub fn parse(cmd: &str) -> (r: Option<Cmd>)
        ensures
            match r {
                Some(c) => parsed(cmd@) == Some(c@),
                None => parsed(cmd@) is None,
            },
    {
        let mut found = split_words(cmd);
        if found.len() == 0 {
            None
        } else {
            let ghost all = found.deep_view();
            let exe = found.remove(0);
            assert(found.deep_view() =~= all.drop_first());
            Some(Cmd { exe, args: found })
        }
    }

    /// The command that runs the program, its output captured and dropped.
    pub fn run(&self) -> (r: Invocation)
        ensures
            r@ == (InvocationView {
                exe: self.exe@,
                args: self.args.deep_view(),
                silent: true,
                read: false,
            }),
    {
        cmd_run_silent(self.exe.as_str(), &self.args)
    }

    /// The command that runs the program and gives what it prints as the
    /// result.
    pub fn read(&self) -> (r: Invocation)
        ensures
            r@ == (InvocationView {
                exe: self.exe@,
                args: self.args.deep_view(),
                silent: true,
                read: true,
            }),
    {
        cmd_read_silent(self.exe.as_str(), &self.args)
    }
}

} // verus!
