//! Module resolution: splices `import "lib.dl".` statements in place, before
//! lowering.
//!
//! - A module import is replaced by the imported file's (recursively resolved)
//!   statements, in source order: textual inclusion, depth-first.
//! - A file splices the first time its canonical path is reached, so diamonds
//!   splice once and cycles end; the root is marked first.
//! - Each file's imports, module and data alike, resolve against that file's
//!   own directory; data import paths are rewritten accordingly. URLs pass
//!   through.
//! - `std/…` is a reserved prefix for the builtin modules, checked before the
//!   file system; a real file it would shadow is an error.
//! - A query in an imported file is an error naming the file.
//!
//! The file system is the caller's: [`Resolver::step`] runs until it needs to
//! know something of the disk, and says what ([`Request`]); the caller answers
//! with the next call ([`Reply`]).
use vstd::prelude::*;

use crate::ast::{ImportKind, Program, Statement, StatementKind};
use crate::error::{Error, ErrorKind};
use crate::parser::parse;
use crate::text::{chars_of, push_str, string_of, to_owned};

verus! {

/// The root program with module imports spliced away.
#[derive(Debug)]
pub struct ResolvedProgram {
    pub program: Program,
    /// Per statement, the index into `files` of the file it came from.
    pub origins: Vec<usize>,
    /// `files[0]` is the root (its path, or `<stdin>`); then the imported
    /// modules in first-visit order.
    pub files: Vec<String>,
}

/// What the resolver needs to know of the disk.
#[derive(Debug, Clone, PartialEq, Eq)]
pub enum Request {
    /// The canonical form of this path, or why there is none.
    Canonicalize(String),
    /// The text of this file, or why it cannot be read.
    Read(String),
    /// Whether anything exists at this path.
    Exists(String),
}

/// The answer to a [`Request`].
#[derive(Debug, PartialEq, Eq)]
pub enum Reply {
    Canonical(Result<String, String>),
    Source(Result<String, String>),
    Exists(bool),
}

/// What a step of resolution came to.
#[derive(Debug)]
pub enum Step {
    /// Resolution is over.
    Done(Result<ResolvedProgram, Vec<Error>>),
    /// The resolver waits for the answer to this request.
    Need(Request),
}

/// A file being spliced: its remaining statements (last first), its directory,
/// its index in `files`, and whether it is the root.
struct Frame {
    rest: Vec<Statement>,
    dir: Option<String>,
    file: usize,
    is_root: bool,
}

/// What the resolver waits for.
enum Awaiting {
    Nothing,
    /// The root's canonical path, to mark it visited.
    RootCanonical,
    /// Whether a `std/` import's path shadows a file; the statement waits.
    Shadow { statement: Statement, module: String, path: String, shadow: String, file: usize },
    /// A module's canonical path.
    ModuleCanonical { resolved: String, file: usize },
    /// A module's text.
    ModuleSource { resolved: String, file: usize },
}

/// The resolver's state between steps.
pub struct Resolver {
    files: Vec<String>,
    visited: Vec<String>,
    statements: Vec<Statement>,
    origins: Vec<usize>,
    errors: Vec<Error>,
    stack: Vec<Frame>,
    awaiting: Awaiting,
    finished: bool,
}

/// While splicing a root file without module imports: nothing has gone
/// wrong, only the root file is open, and what is spliced so far is `done`
/// followed by the first `consumed` of `pend`, the rest of which are the root
/// file's remaining statements.
#[verifier::opaque]
spec fn tracks(
    stack: Seq<Frame>,
    statements: Seq<Statement>,
    errors: nat,
    consumed: int,
    pend: Seq<Statement>,
    done: Seq<Statement>,
    dir0: Option<Seq<char>>,
) -> bool {
    &&& errors == 0
    &&& stack.len() <= 1
    &&& stack.len() == 1 ==> stack[0].is_root && spec_opt_dir(stack[0].dir) == dir0
    &&& 0 <= consumed <= pend.len()
    &&& (if stack.len() == 1 {
        stack[0].rest@.reverse()
    } else {
        Seq::<Statement>::empty()
    }) == pend.skip(consumed)
    &&& statements.len() == done.len() + consumed
    &&& forall|i: int| 0 <= i < done.len() ==> #[trigger] statements[i] == done[i]
    &&& forall|j: int| 0 <= j < consumed ==> spec_spliced_as(pend[j], #[trigger] statements[done.len() + j], dir0)
}

/// The root file's next statement is the next of `pend`.
proof fn lemma_tracks_next(
    before: Seq<Frame>,
    st: Statement,
    r0: Seq<Statement>,
    s0: Seq<Statement>,
    errors: nat,
    consumed: int,
    pend: Seq<Statement>,
    done: Seq<Statement>,
    dir0: Option<Seq<char>>,
)
    requires
        tracks(before, s0, errors, consumed, pend, done, dir0),
        before.len() >= 1,
        before.last().rest@ == r0,
        r0.len() > 0,
        st == r0.last(),
    ensures
        errors == 0,
        before.len() == 1,
        0 <= consumed < pend.len(),
        pend[consumed] == st,
        before[0].is_root,
        spec_opt_dir(before[0].dir) == dir0,
{
    reveal(tracks);
    assert(before.len() == 1);
    assert(before.last() == before[0]);
    assert(r0.reverse().len() > 0);
    assert(r0.reverse()[0] == st);
    assert(pend.skip(consumed).len() > 0);
    assert(pend.skip(consumed)[0] == pend[consumed]);
}

/// A frame whose remaining statements splice without a request or an error:
/// no module import, and no query unless the frame is the root file.
spec fn spec_plain_frame(f: Frame) -> bool {
    forall|j: int|
        0 <= j < f.rest@.len() ==> !is_module_import(#[trigger] f.rest@[j]) && (!f.is_root ==> !(
        f.rest@[j].kind is Query))
}

/// `s1` is `s0` followed by the frame's statements, in order, as splicing
/// writes them against the frame's directory, and then possibly more.
spec fn spec_frame_spliced(f: Frame, s0: Seq<Statement>, s1: Seq<Statement>) -> bool {
    let r = f.rest@.reverse();
    &&& s1.len() >= s0.len() + r.len()
    &&& forall|i: int| 0 <= i < s0.len() ==> #[trigger] s1[i] == s0[i]
    &&& forall|j: int| 0 <= j < r.len() ==> spec_spliced_as(r[j], #[trigger] s1[s0.len() + j], spec_opt_dir(f.dir))
}

/// Splicing the top frame `top` of a stack of `n0` frames onto `s0`: `consumed`
/// of its statements are spliced, and until all are, it is still on top with
/// the rest.
#[verifier::opaque]
spec fn top_tracks(stack: Seq<Frame>, statements: Seq<Statement>, consumed: int, top: Frame, n0: int, s0: Seq<Statement>) -> bool {
    let r = top.rest@.reverse();
    &&& 0 <= consumed <= r.len()
    &&& consumed < r.len() ==> stack.len() == n0 && stack.last().rest@.reverse() == r.skip(consumed) && stack.last().dir
        == top.dir && stack.last().is_root == top.is_root
    &&& statements.len() >= s0.len() + consumed
    &&& consumed < r.len() ==> statements.len() == s0.len() + consumed
    &&& forall|i: int| 0 <= i < s0.len() ==> #[trigger] statements[i] == s0[i]
    &&& forall|j: int|
        0 <= j < consumed ==> spec_spliced_as(r[j], #[trigger] statements[s0.len() + j], spec_opt_dir(top.dir))
}

proof fn lemma_top_done(stack: Seq<Frame>, statements: Seq<Statement>, consumed: int, top: Frame, n0: int, s0: Seq<Statement>)
    requires
        top_tracks(stack, statements, consumed, top, n0, s0),
        consumed == top.rest@.len(),
    ensures
        spec_frame_spliced(top, s0, statements),
{
    reveal(top_tracks);
}

/// Popping an exhausted frame: the top frame, if it is the one, is done.
proof fn lemma_top_pop_empty(
    before: Seq<Frame>,
    statements: Seq<Statement>,
    consumed: int,
    top: Frame,
    n0: int,
    s0: Seq<Statement>,
)
    requires
        top_tracks(before, statements, consumed, top, n0, s0),
        before.len() > 0,
        before.last().rest@.len() == 0,
    ensures
        consumed == top.rest@.len(),
        top_tracks(before.drop_last(), statements, consumed, top, n0, s0),
{
    reveal(top_tracks);
    if consumed < top.rest@.reverse().len() {
        assert(top.rest@.reverse().skip(consumed).len() > 0);
    }
}

/// The next statement popped: while the top frame is not done, it is the top
/// frame's next statement, which splices plainly.
proof fn lemma_top_next(
    before: Seq<Frame>,
    statements: Seq<Statement>,
    consumed: int,
    top: Frame,
    n0: int,
    s0: Seq<Statement>,
    r0: Seq<Statement>,
    st: Statement,
)
    requires
        top_tracks(before, statements, consumed, top, n0, s0),
        spec_plain_frame(top),
        before.len() > 0,
        before.last().rest@ == r0,
        r0.len() > 0,
        st == r0.last(),
    ensures
        consumed < top.rest@.len() ==> !is_module_import(st) && (!before.last().is_root ==> !(st.kind is Query))
            && before.last().dir == top.dir && st == top.rest@.reverse()[consumed],
{
    reveal(top_tracks);
    if consumed < top.rest@.len() {
        let r = top.rest@.reverse();
        assert(r0.reverse()[0] == st);
        assert(r.skip(consumed)[0] == r[consumed]);
        assert(r[consumed] == top.rest@[top.rest@.len() - 1 - consumed]);
    }
}

/// Splicing one statement keeps `top_tracks`, one further on while the top
/// frame is not done.
proof fn lemma_top_step(
    before: Seq<Frame>,
    after: Seq<Frame>,
    f1: Frame,
    st: Statement,
    r0: Seq<Statement>,
    s0_: Seq<Statement>,
    s1: Seq<Statement>,
    consumed: int,
    top: Frame,
    n0: int,
    s0: Seq<Statement>,
) -> (c: int)
    requires
        top_tracks(before, s0_, consumed, top, n0, s0),
        before.len() > 0,
        before.last().rest@ == r0,
        r0.len() > 0,
        st == r0.last(),
        f1.rest@ == r0.drop_last(),
        f1.dir == before.last().dir,
        f1.is_root == before.last().is_root,
        after == before.drop_last().push(f1),
        s1 == s0_ || (s1.drop_last() == s0_ && s1.len() == s0_.len() + 1),
        consumed < top.rest@.len() ==> s1.drop_last() == s0_ && s1.len() == s0_.len() + 1 && spec_spliced_as(
            st,
            s1.last(),
            spec_opt_dir(top.dir),
        ) && st == top.rest@.reverse()[consumed],
    ensures
        top_tracks(after, s1, c, top, n0, s0),
        c == consumed || c == consumed + 1,
{
    reveal(top_tracks);
    let r = top.rest@.reverse();
    if consumed < top.rest@.len() {
        assert(r0.reverse() =~= seq![st] + f1.rest@.reverse());
        assert(r.skip(consumed + 1) =~= r.skip(consumed).skip(1));
        assert((seq![st] + f1.rest@.reverse()).skip(1) =~= f1.rest@.reverse());
        assert(after.last() == f1);
        assert forall|j: int| 0 <= j < consumed + 1 implies spec_spliced_as(
            r[j],
            #[trigger] s1[s0.len() + j],
            spec_opt_dir(top.dir),
        ) by {
            if j < consumed {
                assert(s1[s0.len() + j] == s0_[s0.len() + j]);
            }
        }
        assert forall|i: int| 0 <= i < s0.len() implies #[trigger] s1[i] == s0[i] by {
            assert(s1[i] == s0_[i]);
        }
        consumed + 1
    } else {
        if s1 != s0_ {
            assert forall|j: int| 0 <= j < consumed implies spec_spliced_as(
                r[j],
                #[trigger] s1[s0.len() + j],
                spec_opt_dir(top.dir),
            ) by {
                assert(s1[s0.len() + j] == s0_[s0.len() + j]);
            }
            assert forall|i: int| 0 <= i < s0.len() implies #[trigger] s1[i] == s0[i] by {
                assert(s1[i] == s0_[i]);
            }
        }
        consumed
    }
}

/// Splicing the root file's next statement keeps `tracks`.
proof fn lemma_tracks_step(
    before: Seq<Frame>,
    f1: Frame,
    st: Statement,
    r0: Seq<Statement>,
    s0: Seq<Statement>,
    s1: Seq<Statement>,
    consumed: int,
    pend: Seq<Statement>,
    done: Seq<Statement>,
    dir0: Option<Seq<char>>,
)
    requires
        tracks(before, s0, 0, consumed, pend, done, dir0),
        before.len() == 1,
        before[0].rest@ == r0,
        r0.len() > 0,
        st == r0.last(),
        f1.rest@ == r0.drop_last(),
        f1.dir == before[0].dir,
        f1.is_root == before[0].is_root,
        s1.drop_last() == s0,
        s1.len() == s0.len() + 1,
        spec_spliced_as(st, s1.last(), dir0),
    ensures
        tracks(seq![f1], s1, 0, consumed + 1, pend, done, dir0),
{
    reveal(tracks);
    assert(r0.reverse() =~= seq![st] + f1.rest@.reverse());
    assert(pend.skip(consumed)[0] == st);
    assert(pend.skip(consumed + 1) =~= pend.skip(consumed).skip(1));
    assert((seq![st] + f1.rest@.reverse()).skip(1) =~= f1.rest@.reverse());
    assert(pend.skip(consumed + 1) =~= f1.rest@.reverse());
    assert forall|j: int| 0 <= j < consumed + 1 implies spec_spliced_as(
        pend[j],
        #[trigger] s1[done.len() + j],
        dir0,
    ) by {
        if j < consumed {
            assert(s1[done.len() + j] == s0[done.len() + j]);
        }
    }
    assert forall|i: int| 0 <= i < done.len() implies #[trigger] s1[i] == done[i] by {
        assert(s1[i] == s0[i]);
    }
}

/// Whether a statement is a module import, which resolution splices away.
pub open spec fn is_module_import(s: Statement) -> bool {
    s.kind matches StatementKind::Import(i) && i.kind is Module
}

/// A resolution result is consistent: an origin per statement, each naming a
/// file; no module import left; every query from the root file.
pub open spec fn resolved_ok(rp: ResolvedProgram) -> bool {
    &&& rp.files@.len() >= 1
    &&& rp.origins@.len() == rp.program.statements@.len()
    &&& forall|i: int| 0 <= i < rp.origins@.len() ==> #[trigger] rp.origins@[i] < rp.files@.len()
    &&& forall|i: int|
        0 <= i < rp.program.statements@.len() ==> !is_module_import(
            #[trigger] rp.program.statements@[i],
        ) && (rp.program.statements@[i].kind is Query ==> rp.origins@[i] == 0)
}

/// Whether a path has a URL scheme: `://` occurs in it.
pub open spec fn spec_has_scheme(path: Seq<char>) -> bool {
    exists|i: int| 0 <= i && i + 2 < path.len() && #[trigger] path[i] == ':' && path[i + 1] == '/' && path[i + 2] == '/'
}

/// Whether a path has a URL scheme.
fn has_scheme(path: &str) -> (r: bool)
    ensures
        r == spec_has_scheme(path@),
{
    let v = chars_of(path);
    let mut i: usize = 0;
    while i < v.len() && v.len() - i > 2
        invariant
            v@ == path@,
            i <= v@.len(),
            forall|j: int| 0 <= j < i && j + 2 < v@.len() ==> !(#[trigger] v@[j] == ':' && v@[j + 1] == '/' && v@[j + 2] == '/'),
        decreases v.len() - i,
    {
        if v[i] == ':' && v[i + 1] == '/' && v[i + 2] == '/' {
            return true;
        }
        i += 1;
    }
    false
}

/// A path resolved against a directory: a URL or an absolute path as it is,
/// else the directory, a `/` unless it ends in one, and the path; with no
/// directory, the path as it is.
pub open spec fn spec_resolve_path(path: Seq<char>, dir: Option<Seq<char>>) -> Seq<char> {
    if spec_has_scheme(path) || (path.len() > 0 && path[0] == '/') {
        path
    } else {
        match dir {
            Some(d) => if d.len() > 0 && d.last() != '/' {
                d + "/"@ + path
            } else {
                d + path
            },
            None => path,
        }
    }
}

/// A directory as text.
pub open spec fn spec_dir(dir: Option<&str>) -> Option<Seq<char>> {
    match dir {
        Some(d) => Some(d@),
        None => None,
    }
}

/// A path resolved against the importing file's directory: absolute paths and
/// URLs pass through, and without a directory a relative path stays relative.
pub fn resolve_path(path: &str, dir: Option<&str>) -> (r: String)
    ensures
        r@ == spec_resolve_path(path@, spec_dir(dir)),
{
    let v = chars_of(path);
    if has_scheme(path) || (v.len() > 0 && v[0] == '/') {
        return to_owned(path);
    }
    match dir {
        Some(d) => {
            let dv = chars_of(d);
            let mut out = to_owned(d);
            if dv.len() > 0 && dv[dv.len() - 1] != '/' {
                push_str(&mut out, "/");
            }
            push_str(&mut out, path);
            out
        },
        None => to_owned(path),
    }
}

/// `s` without its trailing `/`s, keeping its first character.
pub open spec fn spec_trim_tail_slashes(s: Seq<char>) -> Seq<char>
    decreases s.len(),
{
    if s.len() > 1 && s.last() == '/' {
        spec_trim_tail_slashes(s.drop_last())
    } else {
        s
    }
}

/// `s` without any of its trailing `/`s.
pub open spec fn spec_trim_all_slashes(s: Seq<char>) -> Seq<char>
    decreases s.len(),
{
    if s.len() > 0 && s.last() == '/' {
        spec_trim_all_slashes(s.drop_last())
    } else {
        s
    }
}

/// The position of the last `/` in `s`.
pub open spec fn spec_last_slash(s: Seq<char>) -> Option<int>
    decreases s.len(),
{
    if s.len() == 0 {
        None
    } else if s.last() == '/' {
        Some(s.len() - 1)
    } else {
        spec_last_slash(s.drop_last())
    }
}

/// A file's directory: with trailing slashes ignored, nothing for an empty
/// path or the root, `.` for a bare name, the root for a file in it, and else
/// the text before the last `/`, its own trailing slashes dropped.
pub open spec fn spec_parent_dir(path: Seq<char>) -> Option<Seq<char>> {
    let t = spec_trim_tail_slashes(path);
    if t.len() == 0 || (t.len() == 1 && t[0] == '/') {
        None
    } else {
        match spec_last_slash(t) {
            None => Some("."@),
            Some(i) => {
                let head = spec_trim_all_slashes(t.take(i));
                if head.len() == 0 {
                    Some("/"@)
                } else {
                    Some(head)
                }
            },
        }
    }
}

/// A file's directory, for resolving its imports: `.` for a bare file name,
/// `None` for a path with no parent.
pub fn parent_dir(path: &str) -> (r: Option<String>)
    ensures
        match spec_parent_dir(path@) {
            Some(d) => r matches Some(x) && x@ == d,
            None => r is None,
        },
{
    let v = chars_of(path);
    let mut n = v.len();
    assert(v@.take(n as int) =~= v@);
    while n > 1 && v[n - 1] == '/'
        invariant
            n <= v.len(),
            v@ == path@,
            spec_trim_tail_slashes(path@) == spec_trim_tail_slashes(v@.take(n as int)),
        decreases n,
    {
        assert(v@.take(n as int).drop_last() =~= v@.take(n - 1));
        n -= 1;
    }
    let ghost t = v@.take(n as int);
    assert(spec_trim_tail_slashes(path@) == t);
    if n == 0 || (n == 1 && v[0] == '/') {
        return None;
    }
    let mut k = n;
    assert(t.take(k as int) =~= t);
    while k > 0 && v[k - 1] != '/'
        invariant
            k <= n <= v.len(),
            t == v@.take(n as int),
            spec_last_slash(t) == spec_last_slash(t.take(k as int)),
        decreases k,
    {
        assert(t.take(k as int).drop_last() =~= t.take(k - 1));
        k -= 1;
    }
    if k == 0 {
        assert(t.take(0) =~= Seq::<char>::empty());
        proof {
            reveal_strlit(".");
        }
        return Some(to_owned("."));
    }
    assert(spec_last_slash(t) == Some(k - 1));
    let mut end = k - 1;
    assert(t.take(k - 1) =~= v@.take(end as int));
    while end > 0 && v[end - 1] == '/'
        invariant
            end < k <= n <= v.len(),
            t == v@.take(n as int),
            spec_trim_all_slashes(t.take(k - 1)) == spec_trim_all_slashes(v@.take(end as int)),
        decreases end,
    {
        assert(v@.take(end as int).drop_last() =~= v@.take(end - 1));
        end -= 1;
    }
    if end == 0 {
        assert(v@.take(0) =~= Seq::<char>::empty());
        proof {
            reveal_strlit("/");
        }
        return Some(to_owned("/"));
    }
    assert(spec_trim_all_slashes(v@.take(end as int)) == v@.take(end as int));
    Some(string_of(crate::text::copy_range(v.as_slice(), 0, end).as_slice()))
}

/// "in `file`"
fn context_of(file: &str) -> (r: String)
    ensures
        r@ == "in `"@ + file@ + "`"@,
{
    proof {
        reveal_strlit("in `");
        reveal_strlit("`");
    }
    let mut c = to_owned("in `");
    push_str(&mut c, file);
    push_str(&mut c, "`");
    c
}

/// The error with its message prefixed by the file it came from; kind, code,
/// span and suggestion are kept.
fn prefix_error(error: Error, context: &str) -> (r: Error)
    ensures
        r.kind == error.kind,
        r.code == error.code,
        r.span == error.span,
        r.suggestion == error.suggestion,
        r.message@ == context@ + ": "@ + error.message@,
{
    let mut e = error;
    let mut m = to_owned(context);
    push_str(&mut m, ": ");
    push_str(&mut m, e.message.as_str());
    e.message = m;
    e
}

/// Whether `s` is one of `vs`.
fn contains_str(vs: &Vec<String>, s: &str) -> (r: bool)
    ensures
        r == exists|k: int| 0 <= k < vs@.len() && (#[trigger] vs@[k])@ == s@,
{
    let mut i: usize = 0;
    while i < vs.len()
        invariant
            i <= vs@.len(),
            forall|k: int| 0 <= k < i ==> (#[trigger] vs@[k])@ != s@,
        decreases vs.len() - i,
    {
        if crate::text::str_equal(vs[i].as_str(), s) {
            return true;
        }
        i += 1;
    }
    false
}

/// Whether `path` begins with the reserved `std/` prefix; the module after it.
/// An optional directory's text.
pub open spec fn spec_opt_dir(dir: Option<String>) -> Option<Seq<char>> {
    match dir {
        Some(d) => Some(d@),
        None => None,
    }
}

/// What splicing a module import of `path` comes to: a `std/` module that
/// exists waits on whether a file shadows it; an unknown `std/` module, a URL,
/// or a path that is not a `.dl` file is one more error; a `.dl` file waits on
/// its canonical path.
pub open spec fn spec_module_outcome(
    path: Seq<char>,
    dir: Option<Seq<char>>,
    r: Option<Request>,
    errors_before: nat,
    errors_after: nat,
) -> bool {
    if spec_std_prefix(path) {
        if path.skip(4) == "time"@ {
            r matches Some(Request::Exists(p)) && p@ == spec_resolve_path(path, dir) && errors_after == errors_before
        } else {
            r is None && errors_after == errors_before + 1
        }
    } else if spec_has_scheme(path) {
        r is None && errors_after == errors_before + 1
    } else if crate::sources::extension(path) == Some(seq!['d', 'l']) {
        r matches Some(Request::Canonicalize(p)) && p@ == spec_resolve_path(path, dir) && errors_after
            == errors_before
    } else {
        r is None && errors_after == errors_before + 1
    }
}

/// Whether a path begins with `std/`.
pub open spec fn spec_std_prefix(path: Seq<char>) -> bool {
    path.len() >= 4 && path[0] == 's' && path[1] == 't' && path[2] == 'd' && path[3] == '/'
}

fn std_module_of(path: &str) -> (r: Option<String>)
    ensures
        spec_std_prefix(path@) ==> (r matches Some(m) && m@ == path@.skip(4)),
        !spec_std_prefix(path@) ==> r is None,
{
    let v = chars_of(path);
    if v.len() >= 4 && v[0] == 's' && v[1] == 't' && v[2] == 'd' && v[3] == '/' {
        Some(string_of(crate::text::copy_range(v.as_slice(), 4, v.len()).as_slice()))
    } else {
        None
    }
}

/// The statements of `program`, last first, ready to pop in order.
fn reversed(program: Program) -> (r: Vec<Statement>)
    ensures
        r@ == program.statements@.reverse(),
{
    let ghost all = program.statements@;
    let mut statements = program.statements;
    let mut out: Vec<Statement> = Vec::new();
    while statements.len() > 0
        invariant
            statements@ == all.take(statements@.len() as int),
            statements@.len() <= all.len(),
            out@ == all.skip(statements@.len() as int).reverse(),
        decreases statements.len(),
    {
        let ghost n = statements@.len();
        let s = statements.pop().unwrap();
        out.push(s);
        proof {
            assert(statements@ =~= all.take(n - 1));
            assert(s == all[n - 1]);
            assert(all.skip(n - 1) =~= seq![all[n - 1]] + all.skip(n as int));
            assert(out@ =~= all.skip(n - 1).reverse());
        }
    }
    assert(all.skip(0) =~= all);
    out
}

spec fn awaiting_ok(a: Awaiting, files: nat) -> bool {
    match a {
        Awaiting::Shadow { statement, file, .. } => file < files && statement.kind is Import,
        Awaiting::ModuleCanonical { file, .. } => file < files,
        Awaiting::ModuleSource { file, .. } => file < files,
        _ => true,
    }
}

/// A request as plain values: its kind (0 canonicalize, 1 read, 2 exists)
/// and its path.
pub open spec fn spec_request(q: Request) -> (int, Seq<char>) {
    match q {
        Request::Canonicalize(p) => (0, p@),
        Request::Read(p) => (1, p@),
        Request::Exists(p) => (2, p@),
    }
}

/// The canonical path a reply gives, if it gives one.
pub open spec fn spec_canonical(reply: Option<Reply>) -> Option<Seq<char>> {
    match reply {
        Some(Reply::Canonical(Ok(c))) => Some(c@),
        _ => None,
    }
}

/// `b` is `a` as splicing writes it: the same statement, an import's path
/// resolved against `dir`.
pub open spec fn spec_spliced_as(a: Statement, b: Statement, dir: Option<Seq<char>>) -> bool {
    b.span == a.span && match a.kind {
        StatementKind::Import(im) => b.kind matches StatementKind::Import(im2) && im2.path@ == spec_resolve_path(
            im.path@,
            dir,
        ) && im2.path_span == im.path_span && im2.kind == im.kind,
        _ => b.kind == a.kind,
    }
}

/// Resolution came to a program that is `spliced` followed by `pending`, each
/// of those as splicing writes it against `dir`.
pub open spec fn spec_resolved_as(
    r: Step,
    spliced: Seq<Statement>,
    pending: Seq<Statement>,
    dir: Option<Seq<char>>,
) -> bool {
    match r {
        Step::Done(Ok(rp)) => {
            &&& rp.program.statements@.len() == spliced.len() + pending.len()
            &&& forall|i: int| 0 <= i < spliced.len() ==> #[trigger] rp.program.statements@[i] == spliced[i]
            &&& forall|j: int|
                0 <= j < pending.len() ==> spec_spliced_as(
                    pending[j],
                    #[trigger] rp.program.statements@[spliced.len() + j],
                    dir,
                )
        },
        _ => false,
    }
}

/// The text a reply gives, if it gives a module's text.
pub open spec fn spec_source(reply: Option<Reply>) -> Option<Seq<char>> {
    match reply {
        Some(Reply::Source(Ok(t))) => Some(t@),
        _ => None,
    }
}

/// The statements a module's text reads as, where it is made of facts, rules
/// and queries over body literals, imports and declarations.
pub open spec fn spec_module_pieces(text: Seq<char>) -> Option<Seq<crate::parser::PieceView>> {
    let lexed = crate::lexer::lex_from(text, 0);
    if lexed.1 == 0 {
        crate::parser::spec_pieces_from(lexed.0.push(crate::lexer::TokenView::Eof), 0)
    } else {
        None
    }
}

/// Statements that splice without a request or an error in an imported
/// module: no query and no module import.
pub open spec fn spec_plain_pieces(ps: Seq<crate::parser::PieceView>) -> bool {
    forall|j: int|
        0 <= j < ps.len() ==> !((#[trigger] ps[j]) is Query) && !(ps[j] matches crate::parser::PieceView::Import(
            _,
            m,
        ) && m)
}

/// `st` is the statement `piece` describes as splicing writes it against
/// `dir`: an import's path resolved, anything else as it is.
pub open spec fn spec_spliced_piece(st: Statement, piece: crate::parser::PieceView, dir: Option<Seq<char>>) -> bool {
    match piece {
        crate::parser::PieceView::Import(path, module) => match st.kind {
            StatementKind::Import(im) => im.path@ == spec_resolve_path(path, dir) && (im.kind is Module <==> module),
            _ => false,
        },
        _ => crate::parser::spec_is_piece(st, piece),
    }
}

/// `s1` is `s0` followed by the module's statements `ps`, in order, as
/// splicing writes them against `dir`, and then possibly more.
pub open spec fn spec_module_spliced(s0: Seq<Statement>, s1: Seq<Statement>, ps: Seq<crate::parser::PieceView>, dir: Option<Seq<char>>) -> bool {
    &&& s1.len() >= s0.len() + ps.len()
    &&& forall|i: int| 0 <= i < s0.len() ==> #[trigger] s1[i] == s0[i]
    &&& forall|j: int| 0 <= j < ps.len() ==> spec_spliced_piece(#[trigger] s1[s0.len() + j], ps[j], dir)
}

/// The statements a step's outcome holds: those resolved, or those spliced
/// so far.
spec fn spec_step_statements(r: Step, spliced: Seq<Statement>) -> Seq<Statement> {
    match r {
        Step::Done(Ok(rp)) => rp.program.statements@,
        _ => spliced,
    }
}

/// Whether resolution failed.
spec fn spec_failed(r: Step) -> bool {
    r matches Step::Done(Err(_))
}

proof fn lemma_spliced_piece(a: Statement, b: Statement, piece: crate::parser::PieceView, dir: Option<Seq<char>>)
    requires
        crate::parser::spec_is_piece(a, piece),
        spec_spliced_as(a, b, dir),
    ensures
        spec_spliced_piece(b, piece, dir),
{
}

/// Whether `reply` answers a request of kind `kind`.
pub open spec fn spec_answers(kind: int, reply: Option<Reply>) -> bool {
    match reply {
        Some(Reply::Canonical(_)) => kind == 0,
        Some(Reply::Source(_)) => kind == 1,
        Some(Reply::Exists(_)) => kind == 2,
        None => false,
    }
}

impl Resolver {
    /// The request the resolver waits to have answered, if any.
    pub closed spec fn awaited(&self) -> Option<(int, Seq<char>)> {
        match self.awaiting {
            Awaiting::Nothing => None,
            Awaiting::RootCanonical => Some((0, self.files@[0]@)),
            Awaiting::Shadow { shadow, .. } => Some((2, shadow@)),
            Awaiting::ModuleCanonical { resolved, .. } => Some((0, resolved@)),
            Awaiting::ModuleSource { resolved, .. } => Some((1, resolved@)),
        }
    }

    /// Whether nothing has gone wrong and only the root file is open.
    pub closed spec fn root_only(&self) -> bool {
        &&& self.errors@.len() == 0
        &&& self.stack@.len() <= 1
        &&& self.stack@.len() == 1 ==> self.stack@[0].is_root
    }

    /// The directory the root file's imports resolve against.
    pub closed spec fn root_dir(&self) -> Option<Seq<char>> {
        if self.stack@.len() == 1 {
            spec_opt_dir(self.stack@[0].dir)
        } else {
            None
        }
    }

    /// Whether the resolver waits for an imported module's text.
    pub closed spec fn awaits_source(&self) -> bool {
        self.awaiting is ModuleSource
    }

    /// Whether the resolver waits for an imported module's canonical path.
    pub closed spec fn awaits_module(&self) -> bool {
        self.awaiting is ModuleCanonical
    }

    /// The canonical paths of the files visited so far.
    pub closed spec fn seen(&self) -> Seq<Seq<char>> {
        self.visited@.map_values(|v: String| v@)
    }

    /// The resolver's standing facts.
    pub closed spec fn ok(&self) -> bool {
        &&& self.files@.len() >= 1
        &&& self.statements@.len() == self.origins@.len()
        &&& forall|i: int| 0 <= i < self.origins@.len() ==> #[trigger] self.origins@[i] < self.files@.len()
        &&& forall|i: int|
            0 <= i < self.statements@.len() ==> !is_module_import(#[trigger] self.statements@[i]) && (
            self.statements@[i].kind is Query ==> self.origins@[i] == 0)
        &&& forall|k: int|
            0 <= k < self.stack@.len() ==> (#[trigger] self.stack@[k]).file < self.files@.len() && (
            self.stack@[k].is_root ==> self.stack@[k].file == 0)
        &&& awaiting_ok(self.awaiting, self.files@.len())
    }

    /// Whether resolution is over.
    pub closed spec fn is_finished(&self) -> bool {
        self.finished
    }

    /// Whether the resolver waits for the root file's canonical path.
    pub closed spec fn awaits_root(&self) -> bool {
        self.awaiting is RootCanonical
    }

    /// The root file's label.
    pub closed spec fn root_label(&self) -> Seq<char> {
        self.files@[0]@
    }

    /// The statements still to splice, first first: the open files' rest, the
    /// most recently opened file's first.
    pub closed spec fn pending(&self) -> Seq<Statement> {
        Resolver::pending_of(self.stack@)
    }

    spec fn pending_of(stack: Seq<Frame>) -> Seq<Statement>
        decreases stack.len(),
    {
        if stack.len() == 0 {
            Seq::empty()
        } else {
            stack.last().rest@.reverse() + Resolver::pending_of(stack.drop_last())
        }
    }

    /// How many statements have been spliced in so far.
    pub closed spec fn spliced(&self) -> Seq<Statement> {
        self.statements@
    }

    /// A resolver for `root`, read from `source_path` (`None` for standard
    /// input or a program given only by queries).
    pub fn new(root: Program, source_path: Option<&str>) -> (r: Resolver)
        ensures
            r.ok(),
            !r.is_finished(),
            r.awaits_root() == source_path is Some,
            r.root_label() == match source_path {
                Some(p) => p@,
                None => "<stdin>"@,
            },
            r.pending() == root.statements@,
            r.spliced().len() == 0,
            r.seen().len() == 0,
            r.root_only(),
            r.root_dir() == match source_path {
                Some(p) => spec_parent_dir(p@),
                None => None,
            },
            r.awaited() == match source_path {
                Some(p) => Some((0int, p@)),
                None => None,
            },
    {
        let label = match source_path {
            Some(p) => to_owned(p),
            None => to_owned("<stdin>"),
        };
        let dir = match source_path {
            Some(p) => parent_dir(p),
            None => None,
        };
        let ghost all = root.statements@;
        let frame = Frame { rest: reversed(root), dir, file: 0, is_root: true };
        proof {
            reveal_strlit("<stdin>");
            assert(frame.rest@.reverse() =~= all);
        }
        let ghost fr = frame;
        let r = Resolver {
            files: vec![label],
            visited: Vec::new(),
            statements: Vec::new(),
            origins: Vec::new(),
            errors: Vec::new(),
            stack: vec![frame],
            awaiting: if source_path.is_some() {
                Awaiting::RootCanonical
            } else {
                Awaiting::Nothing
            },
            finished: false,
        };
        proof {
            assert(r.stack@ =~= seq![fr]);
            assert(seq![fr].drop_last() =~= Seq::<Frame>::empty());
            assert(Resolver::pending_of(Seq::<Frame>::empty()) == Seq::<Statement>::empty());
            assert(seq![fr].last() == fr);
            assert(Resolver::pending_of(seq![fr]) =~= fr.rest@.reverse());
            assert(fr.rest@.reverse() =~= all);
        }
        r
    }

    /// The statements still to splice, with one more per open file.
    spec fn work(&self) -> nat {
        self.stack@.len() + Resolver::rest_total(self.stack@)
    }

    spec fn rest_total(stack: Seq<Frame>) -> nat
        decreases stack.len(),
    {
        if stack.len() == 0 {
            0
        } else {
            Resolver::rest_total(stack.drop_last()) + stack.last().rest@.len()
        }
    }

    fn push_statement(&mut self, statement: Statement, file: usize)
        requires
            old(self).ok(),
            file < old(self).files@.len(),
            !is_module_import(statement),
            statement.kind is Query ==> file == 0,
        ensures
            final(self).finished == old(self).finished,
            final(self).ok(),
            final(self).stack@ == old(self).stack@,
            final(self).files@ == old(self).files@,
            final(self).visited == old(self).visited,
            final(self).awaiting == old(self).awaiting,
            final(self).statements@ == old(self).statements@.push(statement),
            final(self).origins@ == old(self).origins@.push(file),
            final(self).errors@ == old(self).errors@,
    {
        self.statements.push(statement);
        self.origins.push(file);
    }

    /// Runs resolution until it is over or needs the disk. `reply` answers the
    /// previous step's request (`None` on the first call).
    pub fn step(&mut self, reply: Option<Reply>) -> (r: Step)
        requires
            old(self).ok(),
        ensures
            final(self).ok(),
            r matches Step::Done(Ok(rp)) ==> resolved_ok(rp),
            old(self).is_finished() ==> (r matches Step::Done(Err(es)) && es@.len() == 1),
            !old(self).is_finished() && old(self).awaits_root() && !(reply matches Some(Reply::Canonical(_))) ==> (
            r matches Step::Need(Request::Canonicalize(p)) && p@ == old(self).root_label() && final(self).awaits_root()
                && final(self).pending() == old(self).pending()),
            r is Need ==> !final(self).is_finished(),
            r is Done ==> final(self).is_finished(),
            r matches Step::Need(n) ==> final(self).awaited() == Some(spec_request(n)),
            !old(self).is_finished() && old(self).awaits_source() && spec_source(reply) is Some && spec_module_pieces(
                spec_source(reply).unwrap(),
            ) is Some && spec_plain_pieces(spec_module_pieces(spec_source(reply).unwrap()).unwrap()) ==> match r {
                Step::Done(Ok(rp)) => spec_module_spliced(
                    old(self).spliced(),
                    rp.program.statements@,
                    spec_module_pieces(spec_source(reply).unwrap()).unwrap(),
                    spec_parent_dir(old(self).awaited().unwrap().1),
                ),
                Step::Need(_) => spec_module_spliced(
                    old(self).spliced(),
                    final(self).spliced(),
                    spec_module_pieces(spec_source(reply).unwrap()).unwrap(),
                    spec_parent_dir(old(self).awaited().unwrap().1),
                ),
                _ => true,
            },
            !old(self).is_finished() && old(self).awaited() is None && old(self).root_only() && (forall|i: int|
                0 <= i < old(self).pending().len() ==> !is_module_import(#[trigger] old(self).pending()[i]))
                ==> spec_resolved_as(r, old(self).spliced(), old(self).pending(), old(self).root_dir()),
            !old(self).is_finished() && old(self).awaited() is Some && !spec_answers(old(self).awaited().unwrap().0, reply)
                ==> (r matches Step::Need(n) && Some(spec_request(n)) == old(self).awaited()
                && final(self).pending() == old(self).pending() && final(self).spliced() == old(self).spliced()),
            !old(self).is_finished() && old(self).awaits_module() && spec_canonical(reply) is Some ==> (
            if old(self).seen().contains(spec_canonical(reply).unwrap()) {
                final(self).seen() == old(self).seen() && !(r matches Step::Need(Request::Read(_)))
            } else {
                final(self).seen() == old(self).seen().push(spec_canonical(reply).unwrap()) && (r matches Step::Need(
                    Request::Read(p),
                ) && p@ == old(self).awaited().unwrap().1)
            }),
    {
        if self.finished {
            let es = vec![Error::source(to_owned("resolution already finished"))];
            assert(es@.len() == 1);
            return Step::Done(Err(es));
        }
        let ghost mut pushed_frame: Option<Frame> = None;
        let mut awaiting = Awaiting::Nothing;
        std::mem::swap(&mut awaiting, &mut self.awaiting);
        match awaiting {
            Awaiting::Nothing => {},
            Awaiting::RootCanonical => {
                match reply {
                    Some(Reply::Canonical(Ok(canonical))) => {
                        self.visited.push(canonical);
                    },
                    Some(Reply::Canonical(Err(_))) => {},
                    _ => {
                        self.awaiting = Awaiting::RootCanonical;
                        let label = to_owned(self.files[0].as_str());
                        return Step::Need(Request::Canonicalize(label));
                    },
                }
            },
            Awaiting::Shadow { statement, module, path, shadow, file } => {
                match reply {
                    Some(Reply::Exists(exists)) => {
                        if exists {
                            let ctx = context_of(self.files_at(file).as_str());
                            let mut m = ctx;
                            push_str(&mut m, ": `");
                            push_str(&mut m, path.as_str());
                            push_str(&mut m, "` names the reserved `std/` module prefix, but `");
                            push_str(&mut m, shadow.as_str());
                            push_str(
                                &mut m,
                                "` also exists on disk; `std/` always wins, so rename the file to make the program mean one thing",
                            );
                            self.errors.push(Error::source(m));
                        } else {
                            let span = statement.span;
                            if let StatementKind::Import(import) = statement.kind {
                                let std_import = crate::ast::Import {
                                    path: import.path,
                                    path_span: import.path_span,
                                    kind: ImportKind::Std { module },
                                };
                                self.push_statement(
                                    Statement { kind: StatementKind::Import(std_import), span },
                                    file,
                                );
                            }
                        }
                    },
                    _ => {
                        let again = to_owned(shadow.as_str());
                        self.awaiting = Awaiting::Shadow { statement, module, path, shadow, file };
                        return Step::Need(Request::Exists(again));
                    },
                }
            },
            Awaiting::ModuleCanonical { resolved, file } => {
                match reply {
                    Some(Reply::Canonical(Ok(canonical))) => {
                        let ghost seen0 = self.visited@.map_values(|v: String| v@);
                        let ghost c = canonical@;
                        let found = contains_str(&self.visited, canonical.as_str());
                        proof {
                            if found {
                                let k = choose|k: int| 0 <= k < self.visited@.len() && (#[trigger] self.visited@[k])@ == c;
                                assert(seen0[k] == c);
                            } else if seen0.contains(c) {
                                let k = choose|k: int| 0 <= k < seen0.len() && seen0[k] == c;
                                assert(self.visited@[k]@ == c);
                            }
                        }
                        if !found {
                            self.visited.push(canonical);
                            assert(self.visited@.map_values(|v: String| v@) =~= seen0.push(c));
                            let again = to_owned(resolved.as_str());
                            self.awaiting = Awaiting::ModuleSource { resolved, file };
                            return Step::Need(Request::Read(again));
                        }
                    },
                    Some(Reply::Canonical(Err(e))) => {
                        self.cannot_read(file, resolved.as_str(), e.as_str());
                    },
                    _ => {
                        let again = to_owned(resolved.as_str());
                        self.awaiting = Awaiting::ModuleCanonical { resolved, file };
                        return Step::Need(Request::Canonicalize(again));
                    },
                }
            },
            Awaiting::ModuleSource { resolved, file } => {
                match reply {
                    Some(Reply::Source(Ok(source))) => {
                        let module_index = self.files.len();
                        self.files.push(to_owned(resolved.as_str()));
                        match parse(source.as_str()) {
                            Ok(module) => {
                                let dir = parent_dir(resolved.as_str());
                                let ghost ms = module.statements@;
                                let frame = Frame { rest: reversed(module), dir, file: module_index, is_root: false };
                                proof {
                                    if let Some(ps) = spec_module_pieces(source@) {
                                        if spec_plain_pieces(ps) {
                                            assert(crate::parser::spec_is_pieces(module, ps));
                                            assert(frame.rest@.reverse() =~= ms);
                                            assert forall|j: int| 0 <= j < frame.rest@.len() implies !is_module_import(
                                                #[trigger] frame.rest@[j],
                                            ) && !(frame.rest@[j].kind is Query) by {
                                                let k = frame.rest@.len() - 1 - j;
                                                assert(frame.rest@[j] == ms[k]);
                                                assert(crate::parser::spec_is_piece(ms[k], ps[k]));
                                            }
                                        }
                                    }
                                }
                                let ghost fg = frame;
                                self.stack.push(frame);
                                proof {
                                    pushed_frame = Some(fg);
                                    assert(self.stack@.last() == fg);
                                }
                            },
                            Err(errors) => {
                                let wrap = context_of(resolved.as_str());
                                let mut errors = errors;
                                let mut k: usize = 0;
                                while k < errors.len()
                                    decreases errors.len() - k,
                                {
                                    let e = errors.remove(k);
                                    let e = prefix_error(e, wrap.as_str());
                                    errors.insert(k, e);
                                    k += 1;
                                }
                                self.errors.append(&mut errors);
                            },
                        }
                    },
                    Some(Reply::Source(Err(e))) => {
                        self.cannot_read(file, resolved.as_str(), e.as_str());
                    },
                    _ => {
                        let again = to_owned(resolved.as_str());
                        self.awaiting = Awaiting::ModuleSource { resolved, file };
                        return Step::Need(Request::Read(again));
                    },
                }
            },
        }
        let ghost s_before_run = self.statements@;
        let ghost stack_before_run = self.stack@;
        let r = self.run();
        proof {
            if !old(self).finished && old(self).awaiting is ModuleSource && spec_source(reply) is Some {
                if let Some(ps) = spec_module_pieces(spec_source(reply).unwrap()) {
                    if spec_plain_pieces(ps) {
                        assert(pushed_frame is Some);
                        let top = stack_before_run.last();
                        assert(top == pushed_frame.unwrap());
                        let ms = top.rest@.reverse();
                        let s1 = spec_step_statements(r, self.statements@);
                        if !spec_failed(r) {
                            assert forall|j: int| 0 <= j < ps.len() implies spec_spliced_piece(
                                #[trigger] s1[old(self).statements@.len() + j],
                                ps[j],
                                spec_parent_dir(old(self).awaited().unwrap().1),
                            ) by {
                                assert(crate::parser::spec_is_piece(ms[j], ps[j]));
                                lemma_spliced_piece(ms[j], s1[old(self).statements@.len() + j], ps[j], spec_opt_dir(top.dir));
                            }
                        }
                    }
                }
            }
        }
        r
    }

    /// The label of file `file`.
    fn files_at(&self, file: usize) -> (r: String)
        ensures
            r@ == if file < self.files@.len() {
                self.files@[file as int]@
            } else {
                "<unknown>"@
            },
    {
        if file < self.files.len() {
            to_owned(self.files[file].as_str())
        } else {
            to_owned("<unknown>")
        }
    }

    fn cannot_read(&mut self, file: usize, resolved: &str, why: &str)
        requires
            old(self).ok(),
        ensures
            final(self).finished == old(self).finished,
            final(self).ok(),
            final(self).stack@ == old(self).stack@,
            final(self).files@ == old(self).files@,
            final(self).statements@ == old(self).statements@,
            final(self).visited == old(self).visited,
            final(self).awaiting == old(self).awaiting,
            final(self).errors@.drop_last() == old(self).errors@,
            final(self).errors@.len() == old(self).errors@.len() + 1,
            final(self).errors@.last().kind == ErrorKind::Source,
            final(self).errors@.last().message@ == "in `"@ + (if file < old(self).files@.len() {
                old(self).files@[file as int]@
            } else {
                "<unknown>"@
            }) + "`"@ + ": cannot read module `"@ + resolved@ + "`: "@ + why@,
    {
        let mut m = context_of(self.files_at(file).as_str());
        push_str(&mut m, ": cannot read module `");
        push_str(&mut m, resolved);
        push_str(&mut m, "`: ");
        push_str(&mut m, why);
        self.errors.push(Error::source(m));
        assert(self.errors@.drop_last() =~= old(self).errors@);
    }

    /// Splices statements until a request is needed or nothing is left.
    #[verifier::rlimit(60)]
    fn run(&mut self) -> (r: Step)
        requires
            old(self).ok(),
            old(self).awaiting is Nothing,
            !old(self).finished,
        ensures
            final(self).ok(),
            r matches Step::Done(Ok(rp)) ==> resolved_ok(rp),
            r is Need ==> !final(self).finished,
            r is Done ==> final(self).finished,
            final(self).visited == old(self).visited,
            r matches Step::Need(n) ==> final(self).awaited() == Some(spec_request(n)) && !(n is Read),
            old(self).root_only() && (forall|i: int|
                0 <= i < old(self).pending().len() ==> !is_module_import(#[trigger] old(self).pending()[i]))
                ==> spec_resolved_as(r, old(self).spliced(), old(self).pending(), old(self).root_dir()),
            old(self).stack@.len() > 0 && spec_plain_frame(old(self).stack@.last()) ==> match r {
                Step::Done(Ok(rp)) => spec_frame_spliced(
                    old(self).stack@.last(),
                    old(self).statements@,
                    rp.program.statements@,
                ),
                Step::Need(_) => spec_frame_spliced(old(self).stack@.last(), old(self).statements@, final(self).statements@),
                _ => true,
            },
    {
        let ghost gt = old(self).stack@.len() > 0 && spec_plain_frame(old(self).stack@.last());
        let ghost top = old(self).stack@.last();
        let ghost n0 = old(self).stack@.len() as int;
        let ghost mut tc: int = 0;
        proof {
            if gt {
                reveal(top_tracks);
                assert(top.rest@.reverse().skip(0) =~= top.rest@.reverse());
            }
        }
        let ghost clean = old(self).root_only() && (forall|i: int|
            0 <= i < old(self).pending().len() ==> !is_module_import(#[trigger] old(self).pending()[i]));
        let ghost pend = old(self).pending();
        let ghost done = old(self).statements@;
        let ghost dir0 = old(self).root_dir();
        let ghost mut consumed: int = 0;
        proof {
            if clean {
                if self.stack@.len() == 1 {
                    assert(self.stack@.drop_last() =~= Seq::<Frame>::empty());
                    assert(Resolver::pending_of(Seq::<Frame>::empty()) == Seq::<Statement>::empty());
                    assert(pend =~= self.stack@[0].rest@.reverse());
                } else {
                    assert(pend == Seq::<Statement>::empty());
                }
                assert(pend.skip(0) =~= pend);
                reveal(tracks);
            }
        }
        loop
            invariant
                self.ok(),
                self.awaiting is Nothing,
                !self.finished,
                self.visited == old(self).visited,
                clean == (old(self).root_only() && (forall|i: int|
                    0 <= i < old(self).pending().len() ==> !is_module_import(#[trigger] old(self).pending()[i]))),
                pend == old(self).pending(),
                done == old(self).statements@,
                dir0 == old(self).root_dir(),
                clean ==> tracks(self.stack@, self.statements@, self.errors@.len(), consumed, pend, done, dir0),
                gt == (old(self).stack@.len() > 0 && spec_plain_frame(old(self).stack@.last())),
                top == old(self).stack@.last(),
                n0 == old(self).stack@.len() as int,
                gt ==> spec_plain_frame(top) && top_tracks(self.stack@, self.statements@, tc, top, n0, done),
            decreases self.work(),
        {
            if self.stack.len() == 0 {
                self.finished = true;
                if self.errors.len() == 0 {
                    let mut statements: Vec<Statement> = Vec::new();
                    std::mem::swap(&mut statements, &mut self.statements);
                    let mut origins: Vec<usize> = Vec::new();
                    std::mem::swap(&mut origins, &mut self.origins);
                    let mut files: Vec<String> = vec![to_owned("<done>")];
                    std::mem::swap(&mut files, &mut self.files);
                    let rp = ResolvedProgram { program: Program { statements }, origins, files };
                    proof {
                        if clean {
                            reveal(tracks);
                            assert(pend.skip(consumed).len() == 0);
                        }
                        if gt {
                            reveal(top_tracks);
                            lemma_top_done(Seq::<Frame>::empty(), rp.program.statements@, tc, top, n0, done);
                        }
                    }
                    return Step::Done(Ok(rp));
                } else {
                    proof {
                        if clean {
                            reveal(tracks);
                        }
                    }
                    let mut errors: Vec<Error> = Vec::new();
                    std::mem::swap(&mut errors, &mut self.errors);
                    return Step::Done(Err(errors));
                }
            }
            let ghost before = self.stack@;
            let ghost w0 = self.work();
            let mut frame = self.stack.pop().unwrap();
            proof {
                assert(before.drop_last() == self.stack@);
                assert(before.last() == frame);
                assert(Resolver::rest_total(before) == Resolver::rest_total(self.stack@) + frame.rest@.len());
            }
            if frame.rest.len() == 0 {
                assert(self.work() < w0);
                proof {
                    if clean {
                        reveal(tracks);
                    }
                    if gt {
                        lemma_top_pop_empty(before, self.statements@, tc, top, n0, done);
                    }
                }
                continue;
            }
            let ghost rest_before = frame.rest@.len();
            let ghost r0 = frame.rest@;
            let statement = frame.rest.pop().unwrap();
            assert(frame.rest@.len() == rest_before - 1);
            let ghost s0 = self.statements@;
            let ghost f1 = frame;
            proof {
                if clean {
                    lemma_tracks_next(before, statement, r0, s0, self.errors@.len(), consumed, pend, done, dir0);
                    assert(!is_module_import(pend[consumed]));
                }
                if gt {
                    lemma_top_next(before, s0, tc, top, n0, done, r0, statement);
                }
            }
            let dir = match &frame.dir {
                Some(d) => Some(to_owned(d.as_str())),
                None => None,
            };
            let file = frame.file;
            let is_root = frame.is_root;
            self.stack.push(frame);
            proof {
                assert(self.stack@.drop_last() == before.drop_last());
                assert(Resolver::rest_total(self.stack@) == Resolver::rest_total(before.drop_last()) + self.stack@.last().rest@.len());
                assert(self.work() < w0);
            }
            let ghost st = statement;
            let ghost stack_mid = self.stack@;
            let request = self.splice_one(statement, dir, file, is_root);
            proof {
                if gt {
                    assert(stack_mid =~= before.drop_last().push(f1));
                    let c = lemma_top_step(before, stack_mid, f1, st, r0, s0, self.statements@, tc, top, n0, done);
                    tc = c;
                }
            }
            if let Some(request) = request {
                proof {
                    if gt {
                        reveal(top_tracks);
                        lemma_top_done(self.stack@, self.statements@, tc, top, n0, done);
                    }
                }
                return Step::Need(request);
            }
            proof {
                if clean {
                    assert(self.stack@ =~= seq![f1]);
                    lemma_tracks_step(before, f1, st, r0, s0, self.statements@, consumed, pend, done, dir0);
                }
                consumed = consumed + 1;
            }
        }
    }

    /// Splices one statement; a request when it needs the disk.
    #[verifier::rlimit(30)]
    fn splice_one(&mut self, statement: Statement, dir: Option<String>, file: usize, is_root: bool) -> (r: Option<Request>)
        requires
            old(self).ok(),
            file < old(self).files@.len(),
            is_root ==> file == 0,
        ensures
            final(self).finished == old(self).finished,
            final(self).ok(),
            final(self).stack@ == old(self).stack@,
            final(self).files@ == old(self).files@,
            final(self).visited == old(self).visited,
            r is None ==> final(self).awaiting == old(self).awaiting,
            r matches Some(q) ==> final(self).awaited() == Some(spec_request(q)) && !(q is Read),
            statement.kind matches StatementKind::Import(im) ==> (im.kind is Module ==> final(self).statements@
                == old(self).statements@ && spec_module_outcome(
                im.path@,
                spec_opt_dir(dir),
                r,
                old(self).errors@.len(),
                final(self).errors@.len(),
            )),
            !is_module_import(statement) && statement.kind is Query && !is_root ==> r is None && final(
                self).statements@ == old(self).statements@ && final(self).errors@.len() == old(self).errors@.len()
                + 1,
            !is_module_import(statement) && !(statement.kind is Query && !is_root) ==> r is None && final(
                self).statements@.drop_last() == old(self).statements@ && final(self).statements@.len() == old(
                self).statements@.len() + 1 && final(self).origins@ == old(self).origins@.push(file) && final(
                self).errors@ == old(self).errors@ && final(self).statements@.last().span == statement.span && (
            match statement.kind {
                StatementKind::Import(im) => final(self).statements@.last().kind matches StatementKind::Import(im2)
                    && im2.path@ == spec_resolve_path(im.path@, spec_opt_dir(dir)) && im2.path_span == im.path_span
                    && im2.kind == im.kind,
                _ => final(self).statements@.last().kind == statement.kind,
            }),
    {
        let dir_ref = match &dir {
            Some(d) => Some(d.as_str()),
            None => None,
        };
        let module_import_path = match &statement.kind {
            StatementKind::Import(import) => match &import.kind {
                ImportKind::Module => Some(to_owned(import.path.as_str())),
                _ => None,
            },
            _ => None,
        };
        if let Some(path) = module_import_path {
            let ctx = context_of(self.files_at(file).as_str());
            if let Some(module) = std_module_of(path.as_str()) {
                if crate::stdlib::module(module.as_str()).is_none() {
                    let mut m = ctx;
                    push_str(&mut m, ": there is no `");
                    push_str(&mut m, path.as_str());
                    push_str(&mut m, "` module; `std/` provides: ");
                    let names = crate::stdlib::module_names();
                    let mut i: usize = 0;
                    while i < names.len()
                        decreases names.len() - i,
                    {
                        if i > 0 {
                            push_str(&mut m, ", ");
                        }
                        push_str(&mut m, "std/");
                        push_str(&mut m, names[i]);
                        i += 1;
                    }
                    self.errors.push(Error::source(m));
                    return None;
                }
                let shadow = resolve_path(path.as_str(), dir_ref);
                let request = to_owned(shadow.as_str());
                self.awaiting = Awaiting::Shadow { statement, module, path, shadow, file };
                return Some(Request::Exists(request));
            }
            if has_scheme(path.as_str()) {
                let mut m = ctx;
                push_str(&mut m, ": module imports are local files only (`");
                push_str(&mut m, path.as_str());
                push_str(&mut m, "` is a URL); URLs import data, with `as`");
                self.errors.push(Error::source(m));
                return None;
            }
            let chars = chars_of(path.as_str());
            let is_dl = match crate::sources::path_extension(chars.as_slice()) {
                Some(e) => {
                    let b = e.len() == 2 && e[0] == 'd' && e[1] == 'l';
                    proof {
                        if b {
                            assert(e@ =~= seq!['d', 'l']);
                        }
                    }
                    b
                },
                None => false,
            };
            assert(is_dl == (crate::sources::extension(path@) == Some(seq!['d', 'l'])));
            if !is_dl {
                let mut m = ctx;
                push_str(&mut m, ": `import \"");
                push_str(&mut m, path.as_str());
                push_str(
                    &mut m,
                    "\".` without `as` is a module import, which takes a `.dl` file; importing data requires `as`: `import \"",
                );
                push_str(&mut m, path.as_str());
                push_str(&mut m, "\" as <relation>.`");
                self.errors.push(Error::source(m));
                return None;
            }
            let resolved = resolve_path(path.as_str(), dir_ref);
            let request = to_owned(resolved.as_str());
            self.awaiting = Awaiting::ModuleCanonical { resolved, file };
            return Some(Request::Canonicalize(request));
        }
        let is_query = matches!(statement.kind, StatementKind::Query(_));
        if is_query && !is_root {
            let mut m = context_of(self.files_at(file).as_str());
            push_str(
                &mut m,
                ": query statements are not allowed in imported modules (libraries define relations; the importing program asks)",
            );
            self.errors.push(Error::source(m));
            return None;
        }
        let span = statement.span;
        let statement = match statement.kind {
            StatementKind::Import(import) => {
                let rewritten = resolve_path(import.path.as_str(), dir_ref);
                Statement {
                    kind: StatementKind::Import(
                        crate::ast::Import { path: rewritten, path_span: import.path_span, kind: import.kind },
                    ),
                    span,
                }
            },
            other => Statement { kind: other, span },
        };
        self.push_statement(statement, file);
        None
    }
}

} // verus!
