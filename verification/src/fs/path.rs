//! Path parsing with a finite state machine.
use vstd::prelude::*;
use vstd::utf8::encode_utf8;
use crate::strings::{string_pop, string_push, string_with_capacity};

verus! {

/// Longest file name, in bytes.
pub const MAX_FILE_NAME_LENGTH: usize = 255;

/// States of the path parser.
#[derive(Clone, Copy, PartialEq, Eq, Structural, Debug)]
pub enum STATE {
    Start,
    FName,
    DirCur,
    DirParent,
}

/// Errors in the syntax of a path.
#[derive(Clone, Copy, PartialEq, Eq, Structural, Debug)]
pub enum PathFormatError {
    NotAbs,
    NotRel,
    EmptyFileName,
    FileNameTooLong,
    InvalidCharInFileName,
    InvalidCharInFileExt,
    EmptyPath,
    ReferingRootParent,
    Unknown,
}

/// A message describing each path error.
pub fn to_string(error: PathFormatError) -> (r: &'static str)
    ensures
        r@ == error_message(error),
{
    match error {
        PathFormatError::NotAbs => "Path should start with '/'",
        PathFormatError::NotRel => "Processing non-relative path with relative parser",
        PathFormatError::EmptyFileName => "File name is empty",
        PathFormatError::FileNameTooLong => "File name longer than 255 bytes is not allowed",
        PathFormatError::InvalidCharInFileName => "Invalid char is found in file name",
        PathFormatError::InvalidCharInFileExt => "Invalid char is found in file extension",
        PathFormatError::EmptyPath => "Path is empty",
        PathFormatError::ReferingRootParent => "Path invalid because is refering parent of root",
        PathFormatError::Unknown => "unknown error",
    }
}

/// The message of each path error.
pub open spec fn error_message(error: PathFormatError) -> Seq<char> {
    match error {
        PathFormatError::NotAbs => "Path should start with '/'"@,
        PathFormatError::NotRel => "Processing non-relative path with relative parser"@,
        PathFormatError::EmptyFileName => "File name is empty"@,
        PathFormatError::FileNameTooLong => "File name longer than 255 bytes is not allowed"@,
        PathFormatError::InvalidCharInFileName => "Invalid char is found in file name"@,
        PathFormatError::InvalidCharInFileExt => "Invalid char is found in file extension"@,
        PathFormatError::EmptyPath => "Path is empty"@,
        PathFormatError::ReferingRootParent => "Path invalid because is refering parent of root"@,
        PathFormatError::Unknown => "unknown error"@,
    }
}

/// A path, split into its file and directory names.
#[derive(Debug)]
pub struct Path {
    pub path: Vec<String>,
    pub must_dir: bool,
    pub is_abs: bool,
}

/// The mathematical value of a path.
pub struct PathView {
    pub path: Seq<Seq<char>>,
    pub must_dir: bool,
    pub is_abs: bool,
}

/// The characters of each name.
pub open spec fn names_view(v: Seq<String>) -> Seq<Seq<char>> {
    v.map_values(|s: String| s@)
}

impl View for Path {
    type V = PathView;

    open spec fn view(&self) -> PathView {
        PathView { path: names_view(self.path@), must_dir: self.must_dir, is_abs: self.is_abs }
    }
}

impl Clone for Path {
    fn clone(&self) -> (r: Self)
        ensures
            r@ == self@,
    {
        let mut names: Vec<String> = Vec::new();
        let mut i: usize = 0;
        while i < self.path.len()
            invariant
                i <= self.path@.len(),
                names@.len() == i,
                forall|j: int| 0 <= j < i ==> (#[trigger] names@[j])@ == self.path@[j]@,
            decreases self.path@.len() - i,
        {
            names.push(self.path[i].clone());
            i = i + 1;
        }
        proof {
            assert(names_view(names@) =~= names_view(self.path@));
        }
        Path { path: names, must_dir: self.must_dir, is_abs: self.is_abs }
    }
}

/// The name `..`.
pub open spec fn dotdot() -> Seq<char> {
    seq!['.', '.']
}

/// Whether `s` is the name `..`.
fn is_dotdot(s: &String) -> (r: bool)
    ensures
        r == (s@ == dotdot()),
{
    let t = s.as_str();
    if t.unicode_len() != 2 {
        return false;
    }
    let r = t.get_char(0) == '.' && t.get_char(1) == '.';
    proof {
        if r {
            assert(t@ =~= dotdot());
        }
    }
    r
}

/// The outcome of removing `..` names.
pub enum PurgeOutcome {
    /// Every `..` cancelled the name before it; the names that remain.
    Done(Seq<Seq<char>>),
    /// A `..` referred to the parent of the root; the names as they stood then.
    RootParent(Seq<Seq<char>>),
    /// A `..` stood first in a relative path: there is no name before it to remove.
    Underflow,
}

/// Removing `..` names: `kept` are the names already processed (none of them
/// `..`), `rest` those still to come.
pub open spec fn purge_run(kept: Seq<Seq<char>>, rest: Seq<Seq<char>>, is_abs: bool) -> PurgeOutcome
    decreases rest.len(),
{
    if rest.len() == 0 {
        PurgeOutcome::Done(kept)
    } else if rest[0] == dotdot() {
        if kept.len() == 0 {
            if is_abs {
                PurgeOutcome::RootParent(rest)
            } else {
                PurgeOutcome::Underflow
            }
        } else {
            purge_run(kept.drop_last(), rest.drop_first(), is_abs)
        }
    } else {
        purge_run(kept.push(rest[0]), rest.drop_first(), is_abs)
    }
}

/// The characters of a path written out.
pub open spec fn path_string(p: PathView) -> Seq<char> {
    if !p.is_abs && p.path.len() == 0 {
        seq!['.']
    } else {
        let s = (if p.is_abs {
            seq!['/']
        } else {
            Seq::<char>::empty()
        }) + names_joined(p.path);
        if !p.must_dir && s.len() > 0 {
            s.drop_last()
        } else {
            s
        }
    }
}

/// Each name followed by `/`.
pub open spec fn names_joined(names: Seq<Seq<char>>) -> Seq<char>
    decreases names.len(),
{
    if names.len() == 0 {
        Seq::<char>::empty()
    } else {
        names_joined(names.drop_last()) + names.last().push('/')
    }
}

impl Path {
    /// An empty absolute path.
    fn new() -> (r: Path)
        ensures
            r@ == (PathView { path: Seq::empty(), must_dir: false, is_abs: true }),
    {
        let r = Path { path: Vec::new(), must_dir: false, is_abs: true };
        proof {
            assert(names_view(r.path@) =~= Seq::<Seq<char>>::empty());
        }
        r
    }

    /// The path of the root directory.
    pub fn root() -> (r: Path)
        ensures
            r@.path.len() == 0,
            r@.must_dir,
            r@.is_abs,
    {
        let r = Path { path: Vec::new(), must_dir: true, is_abs: true };
        proof {
            assert(names_view(r.path@) =~= Seq::<Seq<char>>::empty());
        }
        r
    }

    /// Removes every `..` together with the name before it.
    ///
    /// Fails when a `..` would climb above the root of an absolute path; the names
    /// are then left as they stood when that `..` was met.
    pub fn purge(&mut self) -> (r: Result<(), PathFormatError>)
        requires
            !(purge_run(Seq::empty(), old(self)@.path, old(self).is_abs) is Underflow),
        ensures
            final(self).must_dir == old(self).must_dir,
            final(self).is_abs == old(self).is_abs,
            purge_run(Seq::empty(), old(self)@.path, old(self).is_abs) matches PurgeOutcome::Done(
                names,
            ) ==> r is Ok && final(self)@.path == names,
            purge_run(Seq::empty(), old(self)@.path, old(self).is_abs) matches PurgeOutcome::RootParent(
                names,
            ) ==> r == Err::<(), PathFormatError>(PathFormatError::ReferingRootParent)
                && final(self)@.path == names,
    {
        let mut idx: usize = 0;
        let ghost init = self@.path;
        proof {
            assert(self@.path.subrange(0, 0) =~= Seq::<Seq<char>>::empty());
            assert(self@.path.subrange(0, self@.path.len() as int) =~= init);
        }
        while idx < self.path.len()
            invariant
                idx <= self.path@.len(),
                init == old(self)@.path,
                self.must_dir == old(self).must_dir,
                self.is_abs == old(self).is_abs,
                purge_run(Seq::empty(), init, self.is_abs) == purge_run(
                    self@.path.subrange(0, idx as int),
                    self@.path.subrange(idx as int, self@.path.len() as int),
                    self.is_abs,
                ),
                !(purge_run(Seq::empty(), init, self.is_abs) is Underflow),
            decreases self.path@.len() - idx,
        {
            let ghost cur = self@.path;
            let ghost kept = cur.subrange(0, idx as int);
            let ghost rest = cur.subrange(idx as int, cur.len() as int);
            assert(rest[0] == cur[idx as int]);
            assert(cur[idx as int] == self.path@[idx as int]@);
            if is_dotdot(&self.path[idx]) {
                if idx == 0 {
                    if self.is_abs {
                        proof {
                            assert(kept =~= Seq::<Seq<char>>::empty());
                            assert(rest =~= cur);

                        }
                        return Err(PathFormatError::ReferingRootParent);
                    } else {
                        assert(false);
                    }
                }
                self.path.remove(idx);
                self.path.remove(idx - 1);
                idx = idx - 1;
                proof {
                    assert(self@.path.subrange(0, idx as int) =~= kept.drop_last());
                    assert(self@.path.subrange(idx as int, self@.path.len() as int)
                        =~= rest.drop_first());
                }
            } else {
                idx = idx + 1;
                proof {
                    assert(self@.path.subrange(0, idx as int) =~= kept.push(rest[0]));
                    assert(self@.path.subrange(idx as int, self@.path.len() as int)
                        =~= rest.drop_first());
                }
            }
        }
        proof {
            assert(self@.path.subrange(0, idx as int) =~= self@.path);
            assert(self@.path.subrange(idx as int, self@.path.len() as int) =~= Seq::<
                Seq<char>,
            >::empty());
        }
        return Ok(());
    }

    /// The path written out: `/` first for an absolute path, `/` after each name,
    /// the last `/` dropped unless the path must be a directory, and `.` for an
    /// empty relative path.
    pub fn to_string(&self) -> (r: String)
        ensures
            r@ == path_string(self@),
    {
        let mut res = String::new();
        if !self.is_abs && self.path.len() == 0 {
            string_push(&mut res, '.');
            proof {
                assert(res@ =~= seq!['.']);
            }
            return res;
        } else if self.is_abs {
            string_push(&mut res, '/');
        }
        let ghost head = res@;
        let mut i: usize = 0;
        while i < self.path.len()
            invariant
                i <= self.path@.len(),
                res@ == head + names_joined(self@.path.subrange(0, i as int)),
            decreases self.path@.len() - i,
        {
            res.append(self.path[i].as_str());
            string_push(&mut res, '/');
            proof {
                let names = self@.path.subrange(0, i + 1);
                assert(names.drop_last() =~= self@.path.subrange(0, i as int));
                assert(names.last() == self.path@[i as int]@);
                assert(res@ =~= head + names_joined(names));
            }
            i = i + 1;
        }
        proof {
            assert(self@.path.subrange(0, i as int) =~= self@.path);
            assert(head =~= (if self.is_abs {
                seq!['/']
            } else {
                Seq::<char>::empty()
            }));
        }
        if !self.must_dir {
            string_pop(&mut res);
        }
        res
    }

    /// Takes off the last name and returns it as a relative path of one name,
    /// which keeps the old `must_dir`; what is left must be a directory.
    /// Returns `None` and changes nothing for a path without names.
    pub fn pop(&mut self) -> (r: Option<Path>)
        ensures
            old(self)@.path.len() == 0 ==> r is None && final(self)@ == old(self)@,
            old(self)@.path.len() > 0 ==> (r matches Some(q) && q@.path == seq![old(
                self,
            )@.path.last()] && q@.must_dir == old(self).must_dir && !q@.is_abs
                && final(self)@.path == old(self)@.path.drop_last() && final(self).must_dir
                && final(self).is_abs == old(self).is_abs),
    {
        if self.path.len() != 0 {
            let ghost before = self@.path;
            let last = self.path.pop().unwrap();
            let mut vt: Vec<String> = Vec::new();
            vt.push(last);
            let p = Path { path: vt, must_dir: self.must_dir, is_abs: false };
            self.must_dir = true;
            proof {
                assert(names_view(p.path@) =~= seq![before.last()]);
                assert(names_view(self.path@) =~= before.drop_last());
            }
            return Some(p);
        } else {
            return None;
        }
    }

    /// Appends a name, and sets whether the path must be a directory.
    pub fn push(&mut self, name: String, must_dir: bool) -> (r: Result<(), ()>)
        ensures
            r is Ok,
            final(self)@.path == old(self)@.path.push(name@),
            final(self).must_dir == must_dir,
            final(self).is_abs == old(self).is_abs,
    {
        let ghost n = name@;
        self.path.push(name);
        self.must_dir = must_dir;
        proof {
            assert(names_view(self.path@) =~= old(self)@.path.push(n));
        }
        return Ok(());
    }

    /// Appends the names of the relative path `rel_path`, whose `must_dir` the
    /// result takes; an absolute `rel_path` is refused and nothing changes.
    pub fn merge(&mut self, rel_path: Path) -> (r: Result<(), &'static str>)
        ensures
            rel_path.is_abs ==> r is Err && r->Err_0@ == "Cannot merge a abs path"@ && final(self)@
                == old(self)@,
            !rel_path.is_abs ==> r is Ok && final(self)@.path == old(self)@.path + rel_path@.path
                && final(self).must_dir == rel_path.must_dir && final(self).is_abs == old(
                self,
            ).is_abs,
    {
        if rel_path.is_abs == true {
            proof {
                reveal_strlit("Cannot merge a abs path");
            }
            return Err("Cannot merge a abs path");
        }
        let Path { path: mut path, must_dir, .. } = rel_path;
        let ghost p = path@;
        self.path.append(&mut path);
        self.must_dir = must_dir;
        proof {
            assert(names_view(self.path@) =~= old(self)@.path + names_view(p));
        }
        return Ok(());
    }
}

/// The mathematical state of the path parser.
pub struct ParserView {
    pub state: STATE,
    pub buf: Seq<char>,
    pub path: PathView,
    pub result: Option<Result<PathView, PathFormatError>>,
}

/// The parser before any character.
pub open spec fn parser_init() -> ParserView {
    ParserView {
        state: STATE::Start,
        buf: Seq::empty(),
        path: PathView { path: Seq::empty(), must_dir: false, is_abs: true },
        result: None,
    }
}

/// Whether `buf` has room for one more character: its UTF-8 encoding is
/// shorter than the longest file name.
pub open spec fn has_room(buf: Seq<char>) -> bool {
    (encode_utf8(buf).len() as usize) < 255
}

/// The parser after the error `e`.
pub open spec fn parser_fail(m: ParserView, e: PathFormatError) -> (
    ParserView,
    Option<Result<PathView, PathFormatError>>,
) {
    (ParserView { result: Some(Err(e)), ..m }, Some(Err(e)))
}

/// One step of the parser on the character `c`: the new state, and the result
/// when parsing stops here.
pub open spec fn parser_read(m: ParserView, c: char) -> (
    ParserView,
    Option<Result<PathView, PathFormatError>>,
) {
    if m.result is Some {
        (m, m.result)
    } else {
        match m.state {
            STATE::Start => {
                if c == '/' {
                    (ParserView { state: STATE::FName, ..m }, None)
                } else {
                    let m1 = ParserView { path: PathView { is_abs: false, ..m.path }, ..m };
                    if c == '.' {
                        (ParserView { buf: m1.buf.push('.'), state: STATE::DirCur, ..m1 }, None)
                    } else if has_room(m1.buf) {
                        (ParserView { buf: m1.buf.push(c), state: STATE::FName, ..m1 }, None)
                    } else {
                        parser_fail(m1, PathFormatError::FileNameTooLong)
                    }
                }
            },
            STATE::FName => {
                if c == '/' {
                    if m.buf.len() > 0 {
                        (
                            ParserView {
                                buf: Seq::empty(),
                                path: PathView { path: m.path.path.push(m.buf), ..m.path },
                                ..m
                            },
                            None,
                        )
                    } else {
                        parser_fail(m, PathFormatError::EmptyFileName)
                    }
                } else if c == '.' && m.buf.len() == 0 {
                    (ParserView { state: STATE::DirCur, ..m }, None)
                } else if has_room(m.buf) {
                    (ParserView { buf: m.buf.push(c), ..m }, None)
                } else {
                    parser_fail(m, PathFormatError::FileNameTooLong)
                }
            },
            STATE::DirCur => {
                if c == '/' {
                    (ParserView { buf: Seq::empty(), state: STATE::FName, ..m }, None)
                } else if c == '.' {
                    (ParserView { state: STATE::DirParent, ..m }, None)
                } else {
                    (ParserView { buf: m.buf.push(c), state: STATE::FName, ..m }, None)
                }
            },
            STATE::DirParent => {
                if c == '/' {
                    (
                        ParserView {
                            state: STATE::FName,
                            buf: if m.buf.len() > 0 {
                                m.buf.drop_last()
                            } else {
                                m.buf
                            },
                            path: PathView { path: m.path.path.push(dotdot()), ..m.path },
                            ..m
                        },
                        None,
                    )
                } else {
                    (ParserView { buf: m.buf.push(c), state: STATE::FName, ..m }, None)
                }
            },
        }
    }
}

/// The result of the parser when the input ends.
pub open spec fn parser_finish(m: ParserView) -> Result<PathView, PathFormatError> {
    if m.result is Some {
        m.result->0
    } else {
        match m.state {
            STATE::Start => Err(PathFormatError::EmptyPath),
            STATE::FName => {
                if m.buf.len() == 0 {
                    Ok(PathView { must_dir: true, ..m.path })
                } else {
                    Ok(PathView { path: m.path.path.push(m.buf), ..m.path })
                }
            },
            STATE::DirCur => Ok(PathView { must_dir: true, ..m.path }),
            STATE::DirParent => Ok(
                PathView { path: m.path.path.push(dotdot()), must_dir: true, ..m.path },
            ),
        }
    }
}

/// The result of parsing `s` from the parser state `m`; a NUL character ends the
/// input.
pub open spec fn parser_run(m: ParserView, s: Seq<char>) -> Result<PathView, PathFormatError>
    decreases s.len(),
{
    if s.len() == 0 || s[0] == '\0' {
        parser_finish(m)
    } else {
        let (m2, out) = parser_read(m, s[0]);
        match out {
            Some(r) => r,
            None => parser_run(m2, s.drop_first()),
        }
    }
}

/// The number of characters before the first `/` or NUL of `s`.
pub open spec fn comp_len(s: Seq<char>) -> nat
    decreases s.len(),
{
    if s.len() == 0 || s[0] == '/' || s[0] == '\0' {
        0
    } else {
        1 + comp_len(s.drop_first())
    }
}

/// The components of `s` between its slashes, up to the first NUL: there is
/// one more component than there are slashes, and a component may be empty.
pub open spec fn split_slash(s: Seq<char>) -> Seq<Seq<char>>
    decreases s.len(),
{
    let k = comp_len(s);
    if k < s.len() && s[k as int] == '/' {
        seq![s.take(k as int)] + split_slash(s.skip(k as int + 1))
    } else {
        seq![s.take(k as int)]
    }
}

/// Whether the name `w` is too long: all of it but its last character already
/// encodes to 255 bytes or more.
pub open spec fn too_long(w: Seq<char>) -> bool {
    w.len() > 0 && encode_utf8(w.drop_last()).len() >= 255
}

/// The name that the component `w` stands for, other than the empty component,
/// `.` and `..`: a component that starts with `.` and goes on with more loses
/// its leading `.`, or its leading `..`; the first component of a relative path
/// keeps one `.` more (so `.a` stays `.a` there, and `..a` gives `.a`).
pub open spec fn comp_name(w: Seq<char>, first: bool) -> Seq<char> {
    if w.len() >= 2 && w[0] == '.' && w != dotdot() {
        if w[1] == '.' {
            if first {
                w.drop_first()
            } else {
                w.skip(2)
            }
        } else if first {
            w
        } else {
            w.drop_first()
        }
    } else {
        w
    }
}

/// The names `names` followed by the component `w`: an empty component and `.`
/// add nothing; `..` is added as it stands, any other as `comp_name` gives it.
pub open spec fn add_comp(names: Seq<Seq<char>>, w: Seq<char>, first: bool) -> Seq<Seq<char>> {
    if w.len() == 0 || w == seq!['.'] {
        names
    } else {
        names.push(comp_name(w, first))
    }
}

/// The path `p` followed by the components `comps` (the first of them the
/// first of a relative path when `first`), or the first error among them: a
/// name that is too long, or an empty component that is not the last. The path
/// must be a directory when its last component is empty, `.` or `..`.
pub open spec fn add_comps(p: PathView, comps: Seq<Seq<char>>, first: bool) -> Result<
    PathView,
    PathFormatError,
>
    decreases comps.len(),
{
    if comps.len() == 0 {
        Ok(p)
    } else {
        let w = comps[0];
        if too_long(comp_name(w, first)) {
            Err(PathFormatError::FileNameTooLong)
        } else if comps.len() == 1 {
            Ok(
                PathView {
                    path: add_comp(p.path, w, first),
                    must_dir: w.len() == 0 || w == seq!['.'] || w == dotdot(),
                    ..p
                },
            )
        } else if w.len() == 0 {
            Err(PathFormatError::EmptyFileName)
        } else {
            add_comps(PathView { path: add_comp(p.path, w, first), ..p }, comps.drop_first(), false)
        }
    }
}

/// The result of parsing the characters `s` as a path, up to the first NUL: an
/// empty input is refused; a leading `/` makes the path absolute; the rest is
/// split at each `/`, empty and `.` components are dropped, `..` components are
/// kept, and the others give names (see `comp_name`).
pub open spec fn parse_spec(s: Seq<char>) -> Result<PathView, PathFormatError> {
    if s.len() == 0 || s[0] == '\0' {
        Err(PathFormatError::EmptyPath)
    } else if s[0] == '/' {
        add_comps(
            PathView { path: Seq::empty(), must_dir: false, is_abs: true },
            split_slash(s.drop_first()),
            false,
        )
    } else {
        add_comps(
            PathView { path: Seq::empty(), must_dir: false, is_abs: false },
            split_slash(s),
            true,
        )
    }
}

/// A parse result taken by its view.
pub open spec fn result_view(r: Result<Path, PathFormatError>) -> Result<PathView, PathFormatError> {
    match r {
        Ok(p) => Ok(p@),
        Err(e) => Err(e),
    }
}

/// The finite state machine that parses a path.
struct PathParser {
    state: STATE,
    buf: String,
    path: Path,
    result: Option<Result<Path, PathFormatError>>,
}

impl View for PathParser {
    type V = ParserView;

    closed spec fn view(&self) -> ParserView {
        ParserView {
            state: self.state,
            buf: self.buf@,
            path: self.path@,
            result: match self.result {
                Some(r) => Some(result_view(r)),
                None => None,
            },
        }
    }
}

/// Whether `c` may stand in a file name: every character may.
fn valid_fname_char(_c: char) -> (r: bool)
    ensures
        r,
{
    return true;
}

/// A name has room for one more character when its encoding is shorter than the
/// longest file name.
fn buf_has_room(buf: &String) -> (r: bool)
    ensures
        r == has_room(buf@),
{
    buf.as_str().len() < MAX_FILE_NAME_LENGTH
}

impl PathParser {
    fn new() -> (r: PathParser)
        ensures
            r@ == parser_init(),
    {
        PathParser {
            state: STATE::Start,
            buf: string_with_capacity(MAX_FILE_NAME_LENGTH),
            path: Path::new(),
            result: None,
        }
    }

    fn read(&mut self, c: char) -> (r: Option<Result<Path, PathFormatError>>)
        ensures
            final(self)@ == parser_read(old(self)@, c).0,
            (match r {
                Some(x) => Some(result_view(x)),
                None => None,
            }) == parser_read(old(self)@, c).1,
    {
        match &self.result {
            Some(Ok(p)) => {
                return Some(Ok(p.clone()));
            },
            Some(Err(e)) => {
                return Some(Err(*e));
            },
            None => {},
        }
        match self.state {
            STATE::Start => {
                if c == '/' {
                    self.state = STATE::FName;
                    return None;
                } else {
                    self.path.is_abs = false;
                    if c == '.' {
                        string_push(&mut self.buf, '.');
                        self.state = STATE::DirCur;
                        return None;
                    } else {
                        if valid_fname_char(c) {
                            if buf_has_room(&self.buf) {
                                string_push(&mut self.buf, c);
                                self.state = STATE::FName;
                                return None;
                            } else {
                                self.result = Some(Err(PathFormatError::FileNameTooLong));
                                return Some(Err(PathFormatError::FileNameTooLong));
                            }
                        } else {
                            self.result = Some(Err(PathFormatError::InvalidCharInFileName));
                            return Some(Err(PathFormatError::InvalidCharInFileName));
                        }
                    }
                }
            },
            STATE::FName => {
                if c == '/' {
                    if !self.buf.as_str().is_empty() {
                        let name = self.buf.clone();
                        let md = self.path.must_dir;
                        self.path.push(name, md);
                        self.buf = string_with_capacity(MAX_FILE_NAME_LENGTH);
                        return None;
                    } else {
                        self.result = Some(Err(PathFormatError::EmptyFileName));
                        return Some(Err(PathFormatError::EmptyFileName));
                    }
                } else if c == '.' && self.buf.as_str().is_empty() {
                    self.state = STATE::DirCur;
                    return None;
                } else {
                    if valid_fname_char(c) {
                        if buf_has_room(&self.buf) {
                            string_push(&mut self.buf, c);
                            return None;
                        } else {
                            self.result = Some(Err(PathFormatError::FileNameTooLong));
                            return Some(Err(PathFormatError::FileNameTooLong));
                        }
                    } else {
                        self.result = Some(Err(PathFormatError::InvalidCharInFileName));
                        return Some(Err(PathFormatError::InvalidCharInFileName));
                    }
                }
            },
            STATE::DirCur => {
                if c == '/' {
                    self.buf = string_with_capacity(MAX_FILE_NAME_LENGTH);
                    self.state = STATE::FName;
                    return None;
                } else if c == '.' {
                    self.state = STATE::DirParent;
                    return None;
                } else if valid_fname_char(c) {
                    string_push(&mut self.buf, c);
                    self.state = STATE::FName;
                    return None;
                } else {
                    self.result = Some(Err(PathFormatError::InvalidCharInFileName));
                    return Some(Err(PathFormatError::InvalidCharInFileName));
                }
            },
            STATE::DirParent => {
                if c == '/' {
                    self.state = STATE::FName;
                    let dd = "..".to_owned();
                    proof {
                        reveal_strlit("..");
                        assert(dd@ =~= dotdot());
                    }
                    let md = self.path.must_dir;
                    self.path.push(dd, md);
                    string_pop(&mut self.buf);
                    return None;
                } else if valid_fname_char(c) {
                    string_push(&mut self.buf, c);
                    self.state = STATE::FName;
                    return None;
                } else {
                    self.result = Some(Err(PathFormatError::InvalidCharInFileName));
                    return Some(Err(PathFormatError::InvalidCharInFileName));
                }
            },
        }
    }

    fn finish(self) -> (r: Result<Path, PathFormatError>)
        ensures
            result_view(r) == parser_finish(self@),
    {
        let mut s = self;
        if let Some(error) = s.result {
            return error;
        }
        match s.state {
            STATE::Start => {
                return Err(PathFormatError::EmptyPath);
            },
            STATE::FName => {
                if s.buf.as_str().is_empty() {
                    s.path.must_dir = true;
                    return Ok(s.path);
                } else {
                    let md = s.path.must_dir;
                    s.path.push(s.buf, md);
                    return Ok(s.path);
                }
            },
            STATE::DirCur => {
                s.path.must_dir = true;
                return Ok(s.path);
            },
            STATE::DirParent => {
                let dd = "..".to_owned();
                proof {
                    reveal_strlit("..");
                    assert(dd@ =~= dotdot());
                }
                s.path.push(dd, true);
                return Ok(s.path);
            },
        }
    }
}

/// Parses `path` into a `Path`; a NUL character ends the input.
pub fn parse_path(path: &str) -> (r: Result<Path, PathFormatError>)
    ensures
        result_view(r) == parse_spec(path@),
{
    let mut parser = PathParser::new();
    let n = path.unicode_len();
    let mut i: usize = 0;
    proof {
        lemma_parser_agrees(path@);
        assert(path@.subrange(0, n as int) =~= path@);
    }
    while i < n
        invariant
            n == path@.len(),
            i <= n,
            parse_spec(path@) == parser_run(parser@, path@.subrange(i as int, n as int)),
        decreases n - i,
    {
        let c = path.get_char(i);
        let ghost rest = path@.subrange(i as int, n as int);
        assert(rest[0] == c);
        if c == '\0' {
            return parser.finish();
        }
        if let Some(error) = parser.read(c) {
            return error;
        }
        proof {
            assert(rest.drop_first() =~= path@.subrange(i + 1, n as int));
        }
        i = i + 1;
    }
    proof {
        assert(path@.subrange(i as int, n as int) =~= Seq::<char>::empty());
    }
    return parser.finish();
}

} // verus!

verus! {

/// The UTF-8 encoding of a sequence with one more character is the old encoding
/// followed by that character's encoding.
proof fn lemma_encode_push(s: Seq<char>, c: char)
    ensures
        encode_utf8(s.push(c)) == encode_utf8(s) + vstd::utf8::encode_scalar(c as u32),
    decreases s.len(),
{
    if s.len() == 0 {
        assert(s.push(c).drop_first() =~= Seq::<char>::empty());
        assert(encode_utf8(Seq::<char>::empty()) =~= Seq::<u8>::empty());
        assert(encode_utf8(s) =~= Seq::<u8>::empty());
        assert(encode_utf8(s.push(c)) =~= vstd::utf8::encode_scalar(c as u32) + Seq::<u8>::empty());
    } else {
        lemma_encode_push(s.drop_first(), c);
        assert(s.push(c).drop_first() =~= s.drop_first().push(c));
        assert(s.push(c)[0] == s[0]);
    }
}

/// A prefix encodes to no more bytes than the whole.
proof fn lemma_encode_prefix(s: Seq<char>, k: int)
    requires
        0 <= k <= s.len(),
    ensures
        encode_utf8(s.subrange(0, k)).len() <= encode_utf8(s).len(),
    decreases s.len() - k,
{
    if k < s.len() {
        lemma_encode_prefix(s, k + 1);
        assert(s.subrange(0, k + 1) =~= s.subrange(0, k).push(s[k]));
        lemma_encode_push(s.subrange(0, k), s[k]);
    } else {
        assert(s.subrange(0, k) =~= s);
    }
}

/// The UTF-8 encoding takes at most four bytes for each character.
proof fn lemma_encode_len(s: Seq<char>)
    ensures
        encode_utf8(s).len() <= 4 * s.len(),
    decreases s.len(),
{
    if s.len() > 0 {
        lemma_encode_len(s.drop_first());
    }
}

/// The first component of `s` holds neither `/` nor NUL, and is followed by the
/// end of `s`, a `/` or a NUL.
proof fn lemma_comp_len(s: Seq<char>)
    ensures
        comp_len(s) <= s.len(),
        forall|i: int| 0 <= i < comp_len(s) ==> #[trigger] s[i] != '/' && s[i] != '\0',
        comp_len(s) < s.len() ==> s[comp_len(s) as int] == '/' || s[comp_len(s) as int] == '\0',
    decreases s.len(),
{
    if s.len() > 0 && s[0] != '/' && s[0] != '\0' {
        lemma_comp_len(s.drop_first());
        assert forall|i: int| 0 <= i < comp_len(s) implies #[trigger] s[i] != '/' && s[i] != '\0' by {
            if i > 0 {
                assert(s[i] == s.drop_first()[i - 1]);
            }
        }
    }
}

/// Reading characters that are neither `/` nor NUL in the `FName` state appends
/// them to the buffer, unless the buffer has grown too long for the next one.
proof fn lemma_read_chars(m: ParserView, w: Seq<char>, rest: Seq<char>)
    requires
        m.result is None,
        m.state == STATE::FName,
        w.len() > 0 ==> encode_utf8(m.buf).len() < 300,
        forall|i: int| 0 <= i < w.len() ==> #[trigger] w[i] != '/' && w[i] != '\0',
        m.buf.len() == 0 && w.len() > 0 ==> w[0] != '.',
    ensures
        parser_run(m, w + rest) == (if w.len() > 0 && encode_utf8(m.buf + w.drop_last()).len()
            >= 255 {
            Err::<PathView, PathFormatError>(PathFormatError::FileNameTooLong)
        } else {
            parser_run(ParserView { buf: m.buf + w, ..m }, rest)
        }),
    decreases w.len(),
{
    if w.len() == 0 {
        assert(w + rest =~= rest);
        assert(m.buf + w =~= m.buf);
    } else {
        let c = w[0];
        assert((w + rest)[0] == c);
        assert((w + rest).drop_first() =~= w.drop_first() + rest);
        let pre = m.buf + w.drop_last();
        lemma_encode_prefix(pre, m.buf.len() as int);
        assert(pre.subrange(0, m.buf.len() as int) =~= m.buf);
        if has_room(m.buf) {
            let m2 = ParserView { buf: m.buf.push(c), ..m };
            assert(parser_read(m, c) == (m2, None::<Result<PathView, PathFormatError>>));
            assert(m2.buf + w.drop_first() =~= m.buf + w);
            lemma_encode_push(m.buf, c);
            if w.drop_first().len() > 0 {
                assert(m2.buf + w.drop_first().drop_last() =~= pre);
            } else {
                assert(pre =~= m.buf);
            }
            lemma_read_chars(m2, w.drop_first(), rest);
        }
    }
}

/// The parser state after reading the component `w` from the state `m` that
/// starts a component (for the first component of a relative path, `m` stands
/// for the start state, whose `.` goes into the buffer): `m` itself after an
/// empty one, `DirCur` after `.`, `DirParent` after `..`, and otherwise the name
/// (see `comp_name`) in the buffer.
pub open spec fn after_comp(m: ParserView, w: Seq<char>, first: bool) -> ParserView {
    let b = if first {
        seq!['.']
    } else {
        m.buf
    };
    if w.len() == 0 {
        m
    } else if w == seq!['.'] {
        ParserView { state: STATE::DirCur, buf: b, ..m }
    } else if w == dotdot() {
        ParserView { state: STATE::DirParent, buf: b, ..m }
    } else {
        ParserView { buf: comp_name(w, first), ..m }
    }
}

/// The name of a component other than the empty one, `.` and `..` is not empty.
proof fn lemma_comp_name_len(w: Seq<char>, first: bool)
    requires
        w.len() > 0,
        w != seq!['.'],
        w != dotdot(),
    ensures
        comp_name(w, first).len() > 0,
{
    if w.len() >= 2 && w[0] == '.' && w[1] == '.' && w.len() == 2 {
        assert(w =~= dotdot());
    }
}

/// Reading a component from the state that starts one either refuses its name
/// as too long or reaches `after_comp`.
proof fn lemma_read_comp(m: ParserView, w: Seq<char>, rest: Seq<char>)
    requires
        m.result is None,
        m.state == STATE::FName,
        m.buf.len() == 0,
        forall|i: int| 0 <= i < w.len() ==> #[trigger] w[i] != '/' && w[i] != '\0',
    ensures
        parser_run(m, w + rest) == (if too_long(comp_name(w, false)) {
            Err::<PathView, PathFormatError>(PathFormatError::FileNameTooLong)
        } else {
            parser_run(after_comp(m, w, false), rest)
        }),
{
    assert(m.buf =~= Seq::<char>::empty());
    assert(encode_utf8(m.buf) =~= Seq::<u8>::empty());
    if w.len() == 0 {
        assert(w + rest =~= rest);
    } else if w[0] != '.' {
        lemma_read_chars(m, w, rest);
        assert(m.buf + w =~= w);
        assert(m.buf + w.drop_last() =~= w.drop_last());
        assert(w[0] != seq!['.'][0]);
        assert(w[0] != dotdot()[0]);
        assert(comp_name(w, false) == w);
        assert(after_comp(m, w, false) == ParserView { buf: m.buf + w, ..m });
    } else {
        let s = w + rest;
        assert(s[0] == '.');
        let md = ParserView { state: STATE::DirCur, ..m };
        assert(parser_read(m, '.') == (md, None::<Result<PathView, PathFormatError>>));
        let s1 = w.drop_first() + rest;
        assert(s.drop_first() =~= s1);
        assert(parser_run(m, s) == parser_run(md, s1));
        if w.len() == 1 {
            assert(w =~= seq!['.']);
            assert(s1 =~= rest);
            assert(comp_name(w, false) == w);
            assert(w.drop_last() =~= Seq::<char>::empty());
            assert(encode_utf8(w.drop_last()) =~= Seq::<u8>::empty());
        } else {
            let c = w[1];
            assert(s1[0] == c);
            if c != '.' {
                assert(s1.drop_first() =~= w.skip(2) + rest);
                let mb = ParserView { buf: seq![c], state: STATE::FName, ..m };
                assert(m.buf.push(c) =~= seq![c]);
                assert(parser_read(md, c) == (mb, None::<Result<PathView, PathFormatError>>));
                assert(parser_run(md, s1) == parser_run(mb, w.skip(2) + rest));
                lemma_encode_len(seq![c]);
                assert forall|i: int| 0 <= i < w.skip(2).len() implies #[trigger] w.skip(2)[i]
                    != '/' && w.skip(2)[i] != '\0' by {
                    assert(w.skip(2)[i] == w[i + 2]);
                }
                lemma_read_chars(mb, w.skip(2), rest);
                assert(w[1] != dotdot()[1]);
                assert(w != dotdot());
                assert(w.len() != seq!['.'].len());
                let t = comp_name(w, false);
                assert(t == w.drop_first());
                assert(mb.buf + w.skip(2) =~= t);
                assert(after_comp(m, w, false) == ParserView { buf: mb.buf + w.skip(2), ..mb });
                if w.len() > 2 {
                    assert(mb.buf + w.skip(2).drop_last() =~= t.drop_last());
                } else {
                    assert(t.drop_last() =~= Seq::<char>::empty());
                    assert(encode_utf8(t.drop_last()) =~= Seq::<u8>::empty());
                }
            } else {
                let mp = ParserView { state: STATE::DirParent, ..m };
                assert(parser_read(md, '.') == (mp, None::<Result<PathView, PathFormatError>>));
                assert(parser_run(md, s1) == parser_run(mp, s1.drop_first()));
                if w.len() == 2 {
                    assert(w =~= dotdot());
                    assert(s1.drop_first() =~= rest);
                    assert(comp_name(w, false) == w);
                    assert(w.drop_last() =~= seq!['.']);
                    lemma_encode_len(seq!['.']);
                    assert(w != seq!['.']);
                } else {
                    let c2 = w[2];
                    let s2 = w.skip(2) + rest;
                    assert(s1.drop_first() =~= s2);
                    assert(s2[0] == c2);
                    assert(s2.drop_first() =~= w.skip(3) + rest);
                    let mb = ParserView { buf: seq![c2], state: STATE::FName, ..m };
                    assert(m.buf.push(c2) =~= seq![c2]);
                    assert(parser_read(mp, c2) == (mb, None::<Result<PathView, PathFormatError>>));
                    assert(parser_run(mp, s2) == parser_run(mb, w.skip(3) + rest));
                    lemma_encode_len(seq![c2]);
                    assert forall|i: int| 0 <= i < w.skip(3).len() implies #[trigger] w.skip(3)[i]
                        != '/' && w.skip(3)[i] != '\0' by {
                        assert(w.skip(3)[i] == w[i + 3]);
                    }
                    lemma_read_chars(mb, w.skip(3), rest);
                    assert(w.len() != seq!['.'].len());
                    assert(w.len() != dotdot().len());
                    let t = comp_name(w, false);
                    assert(t == w.skip(2));
                    assert(mb.buf + w.skip(3) =~= t);
                    assert(after_comp(m, w, false) == ParserView { buf: mb.buf + w.skip(3), ..mb });
                    if w.len() > 3 {
                        assert(mb.buf + w.skip(3).drop_last() =~= t.drop_last());
                    } else {
                        assert(t.drop_last() =~= Seq::<char>::empty());
                        assert(encode_utf8(t.drop_last()) =~= Seq::<u8>::empty());
                    }
                }
            }
        }
    }
}

/// The state of a relative path that starts its first component, as the start
/// state would be but for the leading character.
pub open spec fn rel_start() -> ParserView {
    ParserView {
        state: STATE::FName,
        buf: Seq::empty(),
        path: PathView { path: Seq::empty(), must_dir: false, is_abs: false },
        result: None,
    }
}

/// Reading from the start state the first component of a relative path, when it
/// starts with `.`, either refuses its name as too long or reaches `after_comp`.
proof fn lemma_read_first(w: Seq<char>, rest: Seq<char>)
    requires
        w.len() > 0,
        w[0] == '.',
        forall|i: int| 0 <= i < w.len() ==> #[trigger] w[i] != '/' && w[i] != '\0',
    ensures
        parser_run(parser_init(), w + rest) == (if too_long(comp_name(w, true)) {
            Err::<PathView, PathFormatError>(PathFormatError::FileNameTooLong)
        } else {
            parser_run(after_comp(rel_start(), w, true), rest)
        }),
{
    let m = rel_start();
    let s = w + rest;
    assert(s[0] == '.');
    let md = ParserView { state: STATE::DirCur, buf: seq!['.'], ..m };
    assert(Seq::<char>::empty().push('.') =~= seq!['.']);
    assert(parser_read(parser_init(), '.') == (md, None::<Result<PathView, PathFormatError>>));
    let s1 = w.drop_first() + rest;
    assert(s.drop_first() =~= s1);
    assert(parser_run(parser_init(), s) == parser_run(md, s1));
    if w.len() == 1 {
        assert(w =~= seq!['.']);
        assert(s1 =~= rest);
        assert(comp_name(w, true) == w);
        assert(w.drop_last() =~= Seq::<char>::empty());
        assert(encode_utf8(w.drop_last()) =~= Seq::<u8>::empty());
    } else {
        let c = w[1];
        assert(s1[0] == c);
        if c != '.' {
            assert(s1.drop_first() =~= w.skip(2) + rest);
            let mb = ParserView { buf: seq!['.', c], state: STATE::FName, ..m };
            assert(seq!['.'].push(c) =~= seq!['.', c]);
            assert(parser_read(md, c) == (mb, None::<Result<PathView, PathFormatError>>));
            assert(parser_run(md, s1) == parser_run(mb, w.skip(2) + rest));
            lemma_encode_len(seq!['.', c]);
            assert forall|i: int| 0 <= i < w.skip(2).len() implies #[trigger] w.skip(2)[i] != '/'
                && w.skip(2)[i] != '\0' by {
                assert(w.skip(2)[i] == w[i + 2]);
            }
            lemma_read_chars(mb, w.skip(2), rest);
            assert(w[1] != dotdot()[1]);
            assert(w != dotdot());
            assert(w.len() != seq!['.'].len());
            assert(comp_name(w, true) == w);
            assert(mb.buf + w.skip(2) =~= w);
            assert(after_comp(m, w, true) == ParserView { buf: mb.buf + w.skip(2), ..mb });
            if w.len() > 2 {
                assert(mb.buf + w.skip(2).drop_last() =~= w.drop_last());
            } else {
                assert(w.drop_last() =~= seq!['.']);
                lemma_encode_len(seq!['.']);
            }
        } else {
            let mp = ParserView { state: STATE::DirParent, buf: seq!['.'], ..m };
            assert(parser_read(md, '.') == (mp, None::<Result<PathView, PathFormatError>>));
            assert(parser_run(md, s1) == parser_run(mp, s1.drop_first()));
            if w.len() == 2 {
                assert(w =~= dotdot());
                assert(s1.drop_first() =~= rest);
                assert(comp_name(w, true) == w);
                assert(w.drop_last() =~= seq!['.']);
                lemma_encode_len(seq!['.']);
                assert(w != seq!['.']);
            } else {
                let c2 = w[2];
                let s2 = w.skip(2) + rest;
                assert(s1.drop_first() =~= s2);
                assert(s2[0] == c2);
                assert(s2.drop_first() =~= w.skip(3) + rest);
                let mb = ParserView { buf: seq!['.', c2], state: STATE::FName, ..m };
                assert(seq!['.'].push(c2) =~= seq!['.', c2]);
                assert(parser_read(mp, c2) == (mb, None::<Result<PathView, PathFormatError>>));
                assert(parser_run(mp, s2) == parser_run(mb, w.skip(3) + rest));
                lemma_encode_len(seq!['.', c2]);
                assert forall|i: int| 0 <= i < w.skip(3).len() implies #[trigger] w.skip(3)[i]
                    != '/' && w.skip(3)[i] != '\0' by {
                    assert(w.skip(3)[i] == w[i + 3]);
                }
                lemma_read_chars(mb, w.skip(3), rest);
                assert(w.len() != seq!['.'].len());
                assert(w.len() != dotdot().len());
                let t = comp_name(w, true);
                assert(t == w.drop_first());
                assert(mb.buf + w.skip(3) =~= t);
                assert(after_comp(m, w, true) == ParserView { buf: mb.buf + w.skip(3), ..mb });
                if w.len() > 3 {
                    assert(mb.buf + w.skip(3).drop_last() =~= t.drop_last());
                } else {
                    assert(t.drop_last() =~= seq!['.']);
                    lemma_encode_len(seq!['.']);
                }
            }
        }
    }
}

/// Reading `/` after a component whose name is not too long: an empty
/// component is refused; any other is added to the path, and a new component
/// starts.
proof fn lemma_read_slash(m: ParserView, w: Seq<char>, rest: Seq<char>, first: bool)
    requires
        m.result is None,
        m.state == STATE::FName,
        m.buf.len() == 0,
    ensures
        parser_run(after_comp(m, w, first), seq!['/'] + rest) == (if w.len() == 0 {
            Err::<PathView, PathFormatError>(PathFormatError::EmptyFileName)
        } else {
            parser_run(
                ParserView { path: PathView { path: add_comp(m.path.path, w, first), ..m.path }, ..m },
                rest,
            )
        }),
{
    let s = seq!['/'] + rest;
    assert(s[0] == '/');
    assert(s.drop_first() =~= rest);
    assert(m.buf =~= Seq::<char>::empty());
    assert(seq!['.'].drop_last() =~= Seq::<char>::empty());
    if w.len() > 0 && w != seq!['.'] && w != dotdot() {
        lemma_comp_name_len(w, first);
    }
}

/// The input ending after a component whose name is not too long: the
/// component is added to the path, which must be a directory after an empty
/// component, `.` or `..`.
proof fn lemma_finish_comp(m: ParserView, w: Seq<char>, s: Seq<char>, first: bool)
    requires
        m.result is None,
        m.state == STATE::FName,
        m.buf.len() == 0,
        !m.path.must_dir,
        s.len() == 0 || s[0] == '\0',
    ensures
        parser_run(after_comp(m, w, first), s) == Ok::<PathView, PathFormatError>(
            PathView {
                path: add_comp(m.path.path, w, first),
                must_dir: w.len() == 0 || w == seq!['.'] || w == dotdot(),
                ..m.path
            },
        ),
{
    if w.len() > 0 && w != seq!['.'] && w != dotdot() {
        lemma_comp_name_len(w, first);
    }
}

/// From the state that starts a component, the parser reads the components of
/// `s` one after the other; when `first`, the parser is in the start state of a
/// relative path whose first component starts with `.` (`m` is `rel_start`).
proof fn lemma_read_comps(m: ParserView, s: Seq<char>, first: bool)
    requires
        m.result is None,
        m.state == STATE::FName,
        m.buf.len() == 0,
        !m.path.must_dir,
        first ==> m == rel_start() && s.len() > 0 && s[0] == '.',
    ensures
        parser_run(if first { parser_init() } else { m }, s) == add_comps(m.path, split_slash(s), first),
    decreases s.len(),
{
    lemma_comp_len(s);
    let k = comp_len(s) as int;
    let w = s.take(k);
    let rest = s.skip(k);
    assert(s =~= w + rest);
    assert forall|i: int| 0 <= i < w.len() implies #[trigger] w[i] != '/' && w[i] != '\0' by {
        assert(w[i] == s[i]);
    }
    if first {
        assert(k > 0);
        assert(w[0] == s[0]);
        lemma_read_first(w, rest);
    } else {
        lemma_read_comp(m, w, rest);
    }
    let comps = split_slash(s);
    if k < s.len() && s[k] == '/' {
        let tail = s.skip(k + 1);
        assert(rest =~= seq!['/'] + tail);
        assert(comps == seq![w] + split_slash(tail));
        assert(comps[0] == w);
        assert(comps.drop_first() =~= split_slash(tail));
        assert(split_slash(tail).len() > 0);
        if !too_long(comp_name(w, first)) {
            lemma_read_slash(m, w, tail, first);
            if w.len() > 0 {
                let m2 = ParserView {
                    path: PathView { path: add_comp(m.path.path, w, first), ..m.path },
                    ..m
                };
                lemma_read_comps(m2, tail, false);
            }
        }
    } else {
        assert(comps =~= seq![w]);
        if !too_long(comp_name(w, first)) {
            lemma_finish_comp(m, w, rest, first);
        }
    }
}

/// The parser's state machine computes `parse_spec`.
proof fn lemma_parser_agrees(s: Seq<char>)
    ensures
        parser_run(parser_init(), s) == parse_spec(s),
{
    if s.len() == 0 || s[0] == '\0' {
    } else if s[0] == '/' {
        let m0 = ParserView { state: STATE::FName, ..parser_init() };
        assert(parser_read(parser_init(), '/') == (m0, None::<Result<PathView, PathFormatError>>));
        lemma_read_comps(m0, s.drop_first(), false);
    } else if s[0] == '.' {
        lemma_read_comps(rel_start(), s, true);
    } else {
        let m0 = rel_start();
        let c = s[0];
        assert(encode_utf8(Seq::<char>::empty()) =~= Seq::<u8>::empty());
        assert(parser_read(parser_init(), c) == parser_read(m0, c));
        lemma_read_comps(m0, s, false);
        // The first component does not start with `.`, so it gives the same
        // name whether or not it is taken as the first.
        lemma_comp_len(s);
        let comps = split_slash(s);
        assert(comps[0] == s.take(comp_len(s) as int));
        if comp_len(s) > 0 {
            assert(comps[0][0] == s[0]);
        }
        assert(comp_name(comps[0], true) == comp_name(comps[0], false));
        assert(add_comps(m0.path, comps, true) == add_comps(m0.path, comps, false));
    }
}

/// A name that parses back to itself: it is not empty, holds neither `/` nor NUL,
/// does not start with `.`, and encodes to fewer than 255 bytes.
pub open spec fn valid_name(name: Seq<char>) -> bool {
    &&& name.len() > 0
    &&& name[0] != '.'
    &&& forall|i: int| 0 <= i < name.len() ==> #[trigger] name[i] != '/' && name[i] != '\0'
    &&& encode_utf8(name.drop_last()).len() < 255
}

/// Reading the characters of a name in the `FName` state appends them to the
/// buffer.
proof fn lemma_read_name(m: ParserView, w: Seq<char>, rest: Seq<char>)
    requires
        m.result is None,
        m.state == STATE::FName,
        forall|i: int| 0 <= i < w.len() ==> #[trigger] w[i] != '/' && w[i] != '\0',
        m.buf.len() == 0 && w.len() > 0 ==> w[0] != '.',
        w.len() > 0 ==> encode_utf8(m.buf + w.drop_last()).len() < 255,
    ensures
        parser_run(m, w + rest) == parser_run(ParserView { buf: m.buf + w, ..m }, rest),
{
    if w.len() > 0 {
        lemma_encode_prefix(m.buf + w.drop_last(), m.buf.len() as int);
        assert((m.buf + w.drop_last()).subrange(0, m.buf.len() as int) =~= m.buf);
    } else {
        assert(w + rest =~= rest);
        assert(m.buf + w =~= m.buf);
    }
    lemma_read_chars(m, w, rest);
}

/// Reading names, each followed by `/`, in the `FName` state with an empty buffer
/// appends them to the path.
proof fn lemma_read_names(m: ParserView, names: Seq<Seq<char>>, rest: Seq<char>)
    requires
        m.result is None,
        m.state == STATE::FName,
        m.buf.len() == 0,
        forall|i: int| 0 <= i < names.len() ==> valid_name(#[trigger] names[i]),
    ensures
        parser_run(m, names_joined(names) + rest) == parser_run(
            ParserView { path: PathView { path: m.path.path + names, ..m.path }, ..m },
            rest,
        ),
    decreases names.len(),
{
    if names.len() == 0 {
        assert(names_joined(names) + rest =~= rest);
        assert(m.path.path + names =~= m.path.path);
        assert(PathView { path: m.path.path + names, ..m.path } == m.path);
    } else {
        let dl = names.drop_last();
        let last = names.last();
        assert(valid_name(names[names.len() - 1]));
        assert(forall|i: int| 0 <= i < dl.len() ==> dl[i] == names[i]);
        assert(names_joined(names) + rest =~= names_joined(dl) + (last + (seq!['/'] + rest)));
        lemma_read_names(m, dl, last + (seq!['/'] + rest));
        let m1 = ParserView { path: PathView { path: m.path.path + dl, ..m.path }, ..m };
        assert(m1.buf + last =~= last);
        lemma_read_name(m1, last, seq!['/'] + rest);
        let m2 = ParserView { buf: m1.buf + last, ..m1 };
        assert((seq!['/'] + rest)[0] == '/');
        assert((seq!['/'] + rest).drop_first() =~= rest);
        assert(m2.buf.len() > 0);
        assert((m.path.path + dl).push(last) =~= m.path.path + names);
        assert(m.buf =~= Seq::<char>::empty());
        let m3 = ParserView {
            buf: Seq::empty(),
            path: PathView { path: m2.path.path.push(m2.buf), ..m2.path },
            ..m2
        };
        assert(parser_read(m2, '/') == (m3, None::<Result<PathView, PathFormatError>>));
        assert(parser_run(m2, seq!['/'] + rest) == parser_run(m3, rest));
        assert(m3 == ParserView { path: PathView { path: m.path.path + names, ..m.path }, ..m });
    }
}

/// The parse result with `is_abs` set to `a`.
pub open spec fn with_abs(r: Result<PathView, PathFormatError>, a: bool) -> Result<
    PathView,
    PathFormatError,
> {
    match r {
        Ok(p) => Ok(PathView { is_abs: a, ..p }),
        Err(e) => Err(e),
    }
}

/// Once past the first character, whether the path is absolute is carried along
/// and decided by nothing else.
proof fn lemma_run_abs(m: ParserView, s: Seq<char>, a: bool)
    requires
        m.state != STATE::Start,
        m.result is None,
    ensures
        parser_run(ParserView { path: PathView { is_abs: a, ..m.path }, ..m }, s) == with_abs(
            parser_run(m, s),
            a,
        ),
    decreases s.len(),
{
    let ma = ParserView { path: PathView { is_abs: a, ..m.path }, ..m };
    if s.len() == 0 || s[0] == '\0' {
    } else {
        let (m2, out) = parser_read(m, s[0]);
        let (m2a, outa) = parser_read(ma, s[0]);
        assert(m2a == ParserView { path: PathView { is_abs: a, ..m2.path }, ..m2 });
        if out is None {
            assert(outa is None);
            lemma_run_abs(m2, s.drop_first(), a);
        }
    }
}

/// Writing out a path (see `Path::to_string`) whose names parse back to
/// themselves gives a text that is not empty and parses to a path with the
/// same names, absolute or relative as it was; the relative path with no names
/// is written as `.`. The one path left out is the absolute path with no names
/// that need not be a directory, which is written as nothing at all.
pub proof fn lemma_written_path_parses(p: PathView)
    requires
        forall|i: int| 0 <= i < p.path.len() ==> valid_name(#[trigger] p.path[i]),
        !(p.is_abs && p.path.len() == 0 && !p.must_dir),
    ensures
        path_string(p).len() > 0,
        parse_spec(path_string(p)) is Ok,
        parse_spec(path_string(p))->Ok_0.path == p.path,
        parse_spec(path_string(p))->Ok_0.is_abs == p.is_abs,
        !p.is_abs && p.path.len() == 0 ==> path_string(p) == seq!['.'],
{
    if !p.is_abs && p.path.len() == 0 {
        let s = path_string(p);
        assert(s == seq!['.']);
        assert(comp_len(s.drop_first()) == 0);
        assert(comp_len(s) == 1);
        assert(s.take(1) =~= s);
        assert(split_slash(s) =~= seq![seq!['.']]);
        let w = seq!['.'];
        assert(comp_name(w, true) == w);
        assert(w.drop_last() =~= Seq::<char>::empty());
        assert(encode_utf8(w.drop_last()) =~= Seq::<u8>::empty());
        assert(!too_long(comp_name(w, true)));
        assert(add_comp(Seq::<Seq<char>>::empty(), w, true) == Seq::<Seq<char>>::empty());
        assert(parse_spec(s) == Ok::<PathView, PathFormatError>(
            PathView { path: Seq::empty(), must_dir: true, is_abs: false },
        ));
    } else {
        lemma_parse_to_string(p);
    }
}

/// Parsing a path written out by `to_string` gives the path back, for names that
/// parse back to themselves, except for an absolute path with no names that need
/// not be a directory (written out as nothing at all) and a relative path with no
/// names (written out as `.`, which parses as a directory).
pub proof fn lemma_parse_to_string(p: PathView)
    requires
        forall|i: int| 0 <= i < p.path.len() ==> valid_name(#[trigger] p.path[i]),
        p.is_abs && p.path.len() == 0 ==> p.must_dir,
        !p.is_abs ==> p.path.len() > 0,
    ensures
        parse_spec(path_string(p)) == Ok::<PathView, PathFormatError>(p),
{
    lemma_parser_agrees(path_string(p));
    let names = p.path;
    let m0 = ParserView { state: STATE::FName, ..parser_init() };
    // The characters after the leading `/` of an absolute path.
    let body = if !p.must_dir && names.len() > 0 {
        names_joined(names).drop_last()
    } else {
        names_joined(names)
    };
    // Reading `body` from the state after `/`.
    let target = PathView { path: names, must_dir: p.must_dir, is_abs: true };
    if p.must_dir {
        lemma_read_names(m0, names, Seq::empty());
        assert(names_joined(names) + Seq::<char>::empty() =~= names_joined(names));
        assert(Seq::<Seq<char>>::empty() + names =~= names);
        assert(parser_run(m0, body) == Ok::<PathView, PathFormatError>(target));
    } else {
        let dl = names.drop_last();
        let last = names.last();
        assert(valid_name(names[names.len() - 1]));
        assert(forall|i: int| 0 <= i < dl.len() ==> dl[i] == names[i]);
        assert(body =~= names_joined(dl) + (last + Seq::<char>::empty()));
        lemma_read_names(m0, dl, last + Seq::<char>::empty());
        let m1 = ParserView { path: PathView { path: Seq::empty() + dl, ..m0.path }, ..m0 };
        assert(m1.buf + last =~= last);
        lemma_read_name(m1, last, Seq::empty());
        assert(last + Seq::<char>::empty() =~= last);
        assert((Seq::<Seq<char>>::empty() + dl).push(last) =~= names);
        assert(parser_run(m0, body) == Ok::<PathView, PathFormatError>(target));
    }
    if p.is_abs {
        let s = path_string(p);
        assert(s =~= seq!['/'] + body);
        assert(s[0] == '/');
        assert(s.drop_first() =~= body);
        assert(parser_read(parser_init(), '/').0 == m0);
        assert(target == p);
    } else {
        let s = path_string(p);
        assert(s =~= body);
        let c = names[0][0];
        assert(valid_name(names[0]));
        // `body` starts with the first character of the first name.
        lemma_names_joined_first(names);
        assert(body[0] == c);
        // From the start state and from the state after `/`, reading `c` leads to
        // the same state but for `is_abs`.
        let m1 = ParserView { buf: seq![c], ..m0 };
        assert(encode_utf8(Seq::<char>::empty()) =~= Seq::<u8>::empty());
        assert(has_room(Seq::<char>::empty()));
        assert(parser_read(m0, c) == (m1, None::<Result<PathView, PathFormatError>>));
        let m1r = ParserView { path: PathView { is_abs: false, ..m1.path }, ..m1 };
        assert(parser_read(parser_init(), c) == (m1r, None::<Result<PathView, PathFormatError>>));
        assert(body.len() > 0);
        lemma_run_abs(m1, body.drop_first(), false);
        assert(target == PathView { is_abs: true, ..p });
    }
}

/// The written-out names start with the first character of the first name.
proof fn lemma_names_joined_first(names: Seq<Seq<char>>)
    requires
        names.len() > 0,
        names[0].len() > 0,
    ensures
        names_joined(names).len() > 1,
        names_joined(names)[0] == names[0][0],
    decreases names.len(),
{
    if names.len() == 1 {
        assert(names.drop_last() =~= Seq::<Seq<char>>::empty());
    } else {
        lemma_names_joined_first(names.drop_last());
    }
}

/// No name `..` is left once `purge` succeeds.
pub proof fn lemma_purge_no_dotdot(kept: Seq<Seq<char>>, rest: Seq<Seq<char>>, is_abs: bool)
    requires
        forall|i: int| 0 <= i < kept.len() ==> #[trigger] kept[i] != dotdot(),
    ensures
        purge_run(kept, rest, is_abs) matches PurgeOutcome::Done(names) ==> forall|i: int|
            0 <= i < names.len() ==> #[trigger] names[i] != dotdot(),
    decreases rest.len(),
{
    if rest.len() > 0 {
        if rest[0] == dotdot() {
            if kept.len() > 0 {
                lemma_purge_no_dotdot(kept.drop_last(), rest.drop_first(), is_abs);
            }
        } else {
            assert forall|i: int| 0 <= i < kept.push(rest[0]).len() implies #[trigger] kept.push(
                rest[0],
            )[i] != dotdot() by {
                if i < kept.len() {
                    assert(kept.push(rest[0])[i] == kept[i]);
                }
            }
            lemma_purge_no_dotdot(kept.push(rest[0]), rest.drop_first(), is_abs);
        }
    }
}

/// Pushing back the name that `pop` took off restores the path: `pop` leaves the
/// names but the last, and returns that last name with the old `must_dir`;
/// `push` appends a name and sets `must_dir`.
pub proof fn lemma_pop_then_push(p: PathView, popped: PathView, q: PathView, pushed: PathView)
    requires
        p.path.len() > 0,
        q.path == seq![p.path.last()],
        q.must_dir == p.must_dir,
        popped.path == p.path.drop_last(),
        popped.is_abs == p.is_abs,
        pushed.path == popped.path.push(q.path[0]),
        pushed.must_dir == q.must_dir,
        pushed.is_abs == popped.is_abs,
    ensures
        pushed == p,
{
    assert(pushed.path =~= p.path);
}

} // verus!
