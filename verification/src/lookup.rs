//! Source files of the game and the function calls found in them.
use vstd::prelude::*;
use crate::text;
use crate::ir;

verus! {

broadcast use vstd::string::group_string_axioms;

/// A source file: its path relative to the game directory, its lines, and
/// the calls found in it (the called name and the line, counted from 1).
#[derive(Debug)]
pub struct CodeFile {
    pub path: String,
    pub content: Vec<String>,
    pub func_calls: Vec<(String, usize)>,
}

/// A call site: its line (counted from 1) and the lines around it.
#[derive(Debug)]
pub struct FuncCaller {
    pub line: usize,
    pub surrounding_code: Vec<String>,
}

// ---------------------------------------------------------------------------
// Finding calls
// ---------------------------------------------------------------------------

/// A character that can start an identifier.
pub open spec fn is_ident_start(c: char) -> bool {
    ('a' <= c && c <= 'z') || ('A' <= c && c <= 'Z') || c == '_'
}

/// A character that can continue an identifier.
pub open spec fn is_ident_char(c: char) -> bool {
    is_ident_start(c) || ('0' <= c && c <= '9')
}

/// The end of the identifier characters of `s` from `i` on.
pub open spec fn ident_end(s: Seq<char>, i: int) -> int
    decreases s.len() - i,
{
    if i < 0 || i >= s.len() || !is_ident_char(s[i]) {
        i
    } else {
        ident_end(s, i + 1)
    }
}

/// What `ident_end` returns: the end of the run of identifier characters.
pub proof fn lemma_ident_end(s: Seq<char>, i: int)
    requires
        0 <= i <= s.len(),
    ensures
        i <= ident_end(s, i) <= s.len(),
        forall|j: int| i <= j < ident_end(s, i) ==> is_ident_char(s[j]),
        ident_end(s, i) < s.len() ==> !is_ident_char(s[ident_end(s, i)]),
    decreases s.len() - i,
{
    if i < s.len() && is_ident_char(s[i]) {
        lemma_ident_end(s, i + 1);
    }
}

/// After position `e`, and any whitespace, comes an opening parenthesis.
pub open spec fn followed_by_paren(s: Seq<char>, e: int) -> bool {
    let t = text::trim_start(s.skip(e));
    t.len() > 0 && t[0] == '('
}

/// The identifiers of the line `s`, from position `i` on, that are followed
/// by an opening parenthesis and are not the keyword `function`. An
/// identifier is a letter or `_` followed by letters, digits or `_`.
pub open spec fn line_calls(s: Seq<char>, i: int) -> Seq<Seq<char>>
    decreases s.len() - i,
{
    if i < 0 || i >= s.len() {
        seq![]
    } else if is_ident_start(s[i]) {
        proof {
            lemma_ident_end(s, i + 1);
        }
        let e = ident_end(s, i + 1);
        let id = s.subrange(i, e);
        let here: Seq<Seq<char>> = if id != "function"@ && followed_by_paren(s, e) {
            seq![id]
        } else {
            seq![]
        };
        here + line_calls(s, e)
    } else {
        line_calls(s, i + 1)
    }
}

/// The calls of the lines `content`, line by line, each with its line
/// number counted from 1.
pub open spec fn file_calls(content: Seq<Seq<char>>) -> Seq<(Seq<char>, int)>
    decreases content.len(),
{
    if content.len() == 0 {
        seq![]
    } else {
        let names = line_calls(content.last(), 0);
        file_calls(content.drop_last()) + Seq::new(
            names.len(),
            |k: int| (names[k], content.len() as int),
        )
    }
}

/// The model of a list of calls.
pub open spec fn call_views(v: Seq<(String, usize)>) -> Seq<(Seq<char>, int)> {
    Seq::new(v.len(), |i: int| (v[i].0@, v[i].1 as int))
}

/// The names called in one line (see `line_calls`).
pub fn line_call_names(line: &str) -> (r: Vec<String>)
    ensures
        text::views(r@) == line_calls(line@, 0),
{
    let v = text::to_chars(line);
    let kw = text::to_chars("function");
    let n = v.len();
    let mut out: Vec<String> = Vec::new();
    let mut i: usize = 0;
    let ghost s = v@;
    assert(text::views(out@) + line_calls(s, 0) =~= line_calls(s, 0));
    while i < n
        invariant
            i <= n,
            n == s.len(),
            s == v@,
            s == line@,
            kw@ == "function"@,
            text::views(out@) + line_calls(s, i as int) == line_calls(s, 0),
        decreases n - i,
    {
        let c = v[i];
        if ('a' <= c && c <= 'z') || ('A' <= c && c <= 'Z') || c == '_' {
            let start = i;
            i = i + 1;
            proof {
                lemma_ident_end(s, start + 1);
            }
            while i < n && (('a' <= v[i] && v[i] <= 'z') || ('A' <= v[i] && v[i] <= 'Z') || v[i] == '_'
                || ('0' <= v[i] && v[i] <= '9'))
                invariant
                    start < i <= n,
                    n == s.len(),
                    s == v@,
                    ident_end(s, start + 1) == ident_end(s, i as int),
                decreases n - i,
            {
                i = i + 1;
            }
            let e = i;
            assert(ident_end(s, e as int) == e);
            let id: Vec<char> = text::to_chars(text::slice_string(&v, start, e).as_str());
            let mut j = e;
            assert(s.skip(e as int) =~= s.skip(j as int));
            while j < n && text::char_is_whitespace(v[j])
                invariant
                    e <= j <= n,
                    n == s.len(),
                    s == v@,
                    text::trim_start(s.skip(e as int)) == text::trim_start(s.skip(j as int)),
                decreases n - j,
            {
                assert(s.skip(j as int).drop_first() =~= s.skip(j + 1));
                j = j + 1;
            }
            proof {
                text::lemma_trim_start_stops(s, j as int);
                if j < n {
                    assert(s.skip(j as int)[0] == s[j as int]);
                }
            }
            let paren = j < n && v[j] == '(';
            let ghost before = text::views(out@);
            if !text::chars_eq(&id, &kw) && paren {
                let name = text::from_chars(&id);
                out.push(name);
                assert(text::views(out@) =~= before + seq![id@]);
            }
            proof {
                assert(line_calls(s, start as int) == (if id@ != "function"@ && followed_by_paren(s, e as int) {
                    seq![id@]
                } else {
                    Seq::<Seq<char>>::empty()
                }) + line_calls(s, e as int));
            }
            assert(text::views(out@) + line_calls(s, e as int) =~= before + line_calls(s, start as int));
        } else {
            i = i + 1;
        }
    }
    assert(text::views(out@) =~= text::views(out@) + line_calls(s, n as int));
    out
}


/// The called lines of the calls named `name`, in order.
pub open spec fn lines_named(calls: Seq<(Seq<char>, int)>, name: Seq<char>) -> Seq<int>
    decreases calls.len(),
{
    if calls.len() == 0 {
        seq![]
    } else {
        let rest = lines_named(calls.drop_last(), name);
        if calls.last().0 == name {
            rest.push(calls.last().1)
        } else {
            rest
        }
    }
}

/// The part of the lines that `get_section(start, end)` gives: lines
/// `start` to `end` counted from 1, as far as there are lines.
pub open spec fn section(content: Seq<Seq<char>>, start: int, end: int) -> Seq<Seq<char>> {
    let lo = if start >= 1 { start - 1 } else { 0 };
    let hi = if end <= content.len() { end } else { content.len() as int };
    if lo >= hi {
        seq![]
    } else {
        content.subrange(lo, hi)
    }
}

/// The definition that `get_func_def` finds: among `remaining` lines from
/// index `i`, the first whose text after leading whitespace starts with
/// `function` (that text), or with `local function` (that text without
/// `local `).
pub open spec fn func_def_from(content: Seq<Seq<char>>, i: int, remaining: nat) -> Option<Seq<char>>
    decreases remaining,
{
    if remaining == 0 {
        None
    } else {
        let next = func_def_from(content, i + 1, (remaining - 1) as nat);
        if 0 <= i < content.len() {
            let t = text::trim_start(content[i]);
            if text::starts_with(t, "function"@) {
                Some(t)
            } else if text::starts_with(t, "local function"@) {
                Some(t.skip(6))
            } else {
                next
            }
        } else {
            next
        }
    }
}

/// A comment line or a blank line, after trimming.
pub open spec fn is_comment_or_blank(line: Seq<char>) -> bool {
    let t = text::trim(line);
    text::starts_with(t, "--"@) || t.len() == 0
}

/// The first index of the run of comment and blank lines that ends right
/// before index `k`.
pub open spec fn comment_start(content: Seq<Seq<char>>, k: int) -> int
    decreases k,
{
    if k > 0 && k <= content.len() && is_comment_or_blank(content[k - 1]) {
        comment_start(content, k - 1)
    } else {
        k
    }
}

/// The lines around the call at line `line` (counted from 1): the lines
/// numbered `line - 1` to `line + 1`, as far as there are lines.
pub open spec fn surrounding(content: Seq<Seq<char>>, line: int) -> Seq<Seq<char>> {
    let lo = if line >= 2 { line - 2 } else { 0 };
    let hi = if line + 1 <= content.len() { line + 1 } else { content.len() as int };
    if lo >= hi {
        seq![]
    } else {
        content.subrange(lo, hi)
    }
}

impl CodeFile {
    /// The file at `path` with the lines of `source`, and no calls yet.
    pub fn from_source(path: String, source: &str) -> (r: Self)
        ensures
            r.path@ == path@,
            text::views(r.content@) == text::lines(source@),
            r.func_calls@ == Seq::<(String, usize)>::empty(),
    {
        CodeFile { path, content: text::lines_of(source), func_calls: Vec::new() }
    }

    /// Finds every function call of the file, line by line (see
    /// `line_calls`), with its line number counted from 1.
    pub fn extract_all_lua_func_calls(&mut self)
        ensures
            final(self).path == old(self).path,
            final(self).content == old(self).content,
            call_views(final(self).func_calls@) == file_calls(text::views(old(self).content@)),
    {
        let mut results: Vec<(String, usize)> = Vec::new();
        let ghost c = text::views(self.content@);
        let n = self.content.len();
        let mut line_idx: usize = 0;
        assert(c.take(0) =~= Seq::<Seq<char>>::empty());
        while line_idx < n
            invariant
                line_idx <= n,
                n == self.content@.len(),
                c == text::views(self.content@),
                call_views(results@) == file_calls(c.take(line_idx as int)),
            decreases n - line_idx,
        {
            let names = line_call_names(self.content[line_idx].as_str());
            let ghost before = call_views(results@);
            let mut k: usize = 0;
            while k < names.len()
                invariant
                    k <= names@.len(),
                    line_idx < n,
                    call_views(results@) == before + Seq::new(
                        k as nat,
                        |m: int| (text::views(names@)[m], line_idx + 1),
                    ),
                decreases names@.len() - k,
            {
                let ghost prev = results@;
                let nm = names[k].clone();
                results.push((nm, line_idx + 1));
                assert(call_views(results@) =~= call_views(prev).push(
                    (text::views(names@)[k as int], line_idx + 1),
                ));
                k = k + 1;
                assert(call_views(results@) =~= before + Seq::new(
                    k as nat,
                    |m: int| (text::views(names@)[m], line_idx + 1),
                ));
            }
            assert(c.take(line_idx + 1).drop_last() =~= c.take(line_idx as int));
            assert(c.take(line_idx + 1).last() == self.content@[line_idx as int]@);
            line_idx = line_idx + 1;
            assert(call_views(results@) =~= file_calls(c.take(line_idx as int)));
        }
        assert(c.take(n as int) =~= c);
        self.func_calls = results;
    }

    /// The lines of the calls named `func_name`, in order.
    pub fn look_for_func_call(&self, func_name: &str) -> (r: Vec<usize>)
        ensures
            text::ints(r@) == lines_named(call_views(self.func_calls@), func_name@),
    {
        let name = text::owned(func_name);
        let mut out: Vec<usize> = Vec::new();
        let mut i: usize = 0;
        assert(call_views(self.func_calls@).take(0) =~= Seq::<(Seq<char>, int)>::empty());
        assert(text::ints(out@) =~= Seq::<int>::empty());
        while i < self.func_calls.len()
            invariant
                i <= self.func_calls@.len(),
                name@ == func_name@,
                text::ints(out@) == lines_named(call_views(self.func_calls@).take(i as int), func_name@),
            decreases self.func_calls@.len() - i,
        {
            let ghost before = out@;
            if self.func_calls[i].0 == name {
                out.push(self.func_calls[i].1);
                assert(text::ints(out@) =~= text::ints(before).push(self.func_calls@[i as int].1 as int));
            }
            assert(call_views(self.func_calls@).take(i + 1).drop_last() =~= call_views(self.func_calls@).take(i as int));
            i = i + 1;
        }
        assert(call_views(self.func_calls@).take(i as int) =~= call_views(self.func_calls@));
        out
    }

    /// The line at index `line` (counted from 0), if there is one.
    pub fn get_line(&self, line: usize) -> (r: Option<&String>)
        ensures
            line < self.content@.len() ==> r == Some(&self.content@[line as int]),
            line >= self.content@.len() ==> r is None,
    {
        if line < self.content.len() {
            Some(&self.content[line])
        } else {
            None
        }
    }

    /// Lines `start` to `end`, counted from 1, as far as there are lines.
    pub fn get_section(&self, start: usize, end: usize) -> (r: Vec<String>)
        ensures
            text::views(r@) == section(text::views(self.content@), start as int, end as int),
    {
        let start_idx = if start >= 1 { start - 1 } else { 0 };
        let end_idx = if end <= self.content.len() { end } else { self.content.len() };
        if start_idx >= end_idx {
            return Vec::new();
        }
        text::clone_range(&self.content, start_idx, end_idx)
    }

    /// Searches down from the line at index `line`, at most 5 lines, for
    /// the definition of a function: a line starting with `function`, or
    /// with `local function` (given without `local `), after leading
    /// whitespace (see `func_def_from`).
    pub fn get_func_def(&self, line: usize) -> (r: Option<String>)
        requires
            line + 5 <= usize::MAX,
        ensures
            match func_def_from(text::views(self.content@), line as int, 5) {
                Some(d) => r is Some && r->0@ == d,
                None => r is None,
            },
    {
        let ghost c = text::views(self.content@);
        let mut i = line;
        while i < line + 5
            invariant
                line <= i <= line + 5,
                line + 5 <= usize::MAX,
                c == text::views(self.content@),
                func_def_from(c, line as int, 5) == func_def_from(c, i as int, (line + 5 - i) as nat),
            decreases line + 5 - i,
        {
            if let Some(s) = self.get_line(i) {
                let t = text::trim_start_str(s.as_str());
                if text::starts_with_str(t.as_str(), "function") {
                    return Some(t);
                } else if text::starts_with_str(t.as_str(), "local function") {
                    let tv = text::to_chars(t.as_str());
                    proof {
                        reveal_strlit("local function");
                    }
                    let rest = text::slice_string(&tv, 6, tv.len());
                    assert(tv@.skip(6) =~= tv@.subrange(6, tv@.len() as int));
                    return Some(rest);
                }
            }
            i = i + 1;
        }
        None
    }

    /// Lines `start` to `end` (counted from 1, as far as there are lines)
    /// together with the comment and blank lines right above them, and the
    /// number of those lines above.
    pub fn get_func_decl_with_comments(&self, start: usize, end: usize) -> (r: (Vec<String>, usize))
        ensures
            ({
                let c = text::views(self.content@);
                let lo = if start >= 1 { start - 1 } else { 0 };
                let hi = if end <= c.len() { end as int } else { c.len() as int };
                if lo >= hi {
                    r.0@.len() == 0 && r.1 == 0
                } else {
                    let first = comment_start(c, lo);
                    text::views(r.0@) == c.subrange(first, hi) && r.1 == lo - first
                }
            }),
    {
        let ghost c = text::views(self.content@);
        let start_idx = if start >= 1 { start - 1 } else { 0 };
        let end_idx = if end <= self.content.len() { end } else { self.content.len() };
        if start_idx >= end_idx {
            return (Vec::new(), 0);
        }
        let mut actual_start = start_idx;
        let mut offset: usize = 0;
        while actual_start > 0
            invariant
                actual_start <= start_idx < end_idx <= self.content@.len(),
                c == text::views(self.content@),
                offset == start_idx - actual_start,
                comment_start(c, start_idx as int) == comment_start(c, actual_start as int),
            ensures
                actual_start <= start_idx,
                offset == start_idx - actual_start,
                comment_start(c, start_idx as int) == actual_start,
            decreases actual_start,
        {
            let trimmed = text::trim_str(self.content[actual_start - 1].as_str());
            assert(trimmed@ == text::trim(c[actual_start - 1]));
            if text::starts_with_str(trimmed.as_str(), "--") || trimmed.as_str().is_empty() {
                assert(is_comment_or_blank(c[actual_start - 1]));
                actual_start = actual_start - 1;
                offset = offset + 1;
            } else {
                assert(!is_comment_or_blank(c[actual_start - 1]));
                assert(comment_start(c, actual_start as int) == actual_start);
                break ;
            }
        }
        (text::clone_range(&self.content, actual_start, end_idx), offset)
    }

    /// For each call line, the call site with the lines around it (see
    /// `surrounding`).
    pub fn get_func_call_lines(&self, lines: &[usize]) -> (r: Vec<FuncCaller>)
        requires
            forall|i: int| 0 <= i < lines@.len() ==> lines@[i] < usize::MAX,
        ensures
            r@.len() == lines@.len(),
            forall|i: int|
                0 <= i < lines@.len() ==> (#[trigger] r@[i]).line == lines@[i] && text::views(
                    r@[i].surrounding_code@,
                ) == surrounding(text::views(self.content@), lines@[i] as int),
    {
        let mut out: Vec<FuncCaller> = Vec::new();
        let mut i: usize = 0;
        while i < lines.len()
            invariant
                i <= lines@.len(),
                forall|j: int| 0 <= j < lines@.len() ==> lines@[j] < usize::MAX,
                out@.len() == i,
                forall|j: int|
                    0 <= j < i ==> (#[trigger] out@[j]).line == lines@[j] && text::views(
                        out@[j].surrounding_code@,
                    ) == surrounding(text::views(self.content@), lines@[j] as int),
            decreases lines@.len() - i,
        {
            let line = lines[i];
            let lo = if line >= 2 { line - 2 } else { 0 };
            let hi = if line + 1 <= self.content.len() { line + 1 } else { self.content.len() };
            let code = if lo >= hi { Vec::new() } else { text::clone_range(&self.content, lo, hi) };
            out.push(FuncCaller { line, surrounding_code: code });
            i = i + 1;
        }
        out
    }
}


// ---------------------------------------------------------------------------
// Files by path
// ---------------------------------------------------------------------------

/// The source files by path: at most one file for each path.
#[derive(Debug)]
pub struct CodeIndex {
    pub files: Vec<CodeFile>,
}

/// The first file of `files` at `path`.
pub open spec fn find_file(files: Seq<CodeFile>, path: Seq<char>) -> Option<int>
    decreases files.len(),
{
    if files.len() == 0 {
        None
    } else if files[0].path@ == path {
        Some(0)
    } else {
        match find_file(files.drop_first(), path) {
            Some(i) => Some(i + 1),
            None => None,
        }
    }
}

/// What `find_file` returns: the first file at that path.
pub proof fn lemma_find_file(files: Seq<CodeFile>, path: Seq<char>)
    ensures
        match find_file(files, path) {
            Some(i) => 0 <= i < files.len() && files[i].path@ == path && forall|j: int|
                0 <= j < i ==> files[j].path@ != path,
            None => forall|j: int| 0 <= j < files.len() ==> files[j].path@ != path,
        },
    decreases files.len(),
{
    if files.len() > 0 && files[0].path@ != path {
        lemma_find_file(files.drop_first(), path);
        assert forall|j: int| 1 <= j < files.len() implies files[j] == files.drop_first()[j - 1] by {}
    }
}

/// The file of `files` at `path`.
pub open spec fn file_at(files: Seq<CodeFile>, path: Seq<char>) -> Option<CodeFile> {
    match find_file(files, path) {
        Some(i) => Some(files[i]),
        None => None,
    }
}

/// `find_file` is the first position with that path.
pub proof fn lemma_find_file_is(files: Seq<CodeFile>, path: Seq<char>, k: int)
    requires
        0 <= k < files.len(),
        files[k].path@ == path,
        forall|j: int| 0 <= j < k ==> files[j].path@ != path,
    ensures
        find_file(files, path) == Some(k),
{
    lemma_find_file(files, path);
}

/// `files` with `f` in place of the file at its path, or added at the end.
pub open spec fn file_insert(files: Seq<CodeFile>, f: CodeFile) -> Seq<CodeFile> {
    match find_file(files, f.path@) {
        Some(i) => files.update(i, f),
        None => files.push(f),
    }
}

/// The files of `files` inserted in turn: for each path, the last file at
/// that path, at the place of the first.
pub open spec fn files_inserted(files: Seq<CodeFile>) -> Seq<CodeFile>
    decreases files.len(),
{
    if files.len() == 0 {
        seq![]
    } else {
        file_insert(files_inserted(files.drop_last()), files.last())
    }
}

/// No two files share a path.
pub open spec fn distinct_paths(files: Seq<CodeFile>) -> bool {
    forall|i: int, j: int| 0 <= i < j < files.len() ==> files[i].path@ != files[j].path@
}

/// Putting a file in keeps the paths distinct.
pub proof fn lemma_insert_keeps_distinct(files: Seq<CodeFile>, f: CodeFile)
    requires
        distinct_paths(files),
    ensures
        distinct_paths(file_insert(files, f)),
{
    lemma_find_file(files, f.path@);
}

/// An index built by putting files in one after another has distinct paths.
pub proof fn lemma_inserted_distinct(files: Seq<CodeFile>)
    ensures
        distinct_paths(files_inserted(files)),
    decreases files.len(),
{
    if files.len() > 0 {
        lemma_inserted_distinct(files.drop_last());
        lemma_insert_keeps_distinct(files_inserted(files.drop_last()), files.last());
    }
}

impl CodeIndex {
    /// No file yet.
    pub fn new() -> (r: Self)
        ensures
            r.files@ == Seq::<CodeFile>::empty(),
            distinct_paths(r.files@),
    {
        CodeIndex { files: Vec::new() }
    }

    /// The index of the file at `path`.
    fn position(&self, path: &str) -> (r: Option<usize>)
        ensures
            r matches Some(i) ==> find_file(self.files@, path@) == Some(i as int) && i < self.files@.len(),
            r is None ==> find_file(self.files@, path@) is None,
    {
        let p = text::owned(path);
        let ghost fs = self.files@;
        let mut i: usize = 0;
        assert(fs.skip(0) =~= fs);
        while i < self.files.len()
            invariant
                i <= fs.len(),
                fs == self.files@,
                p@ == path@,
                find_file(fs, path@) == match find_file(fs.skip(i as int), path@) {
                    Some(k) => Some(k + i),
                    None => None,
                },
            decreases fs.len() - i,
        {
            assert(fs.skip(i as int).drop_first() =~= fs.skip(i + 1));
            if self.files[i].path == p {
                assert(find_file(fs.skip(i as int), path@) == Some(0int));
                return Some(i);
            }
            i = i + 1;
        }
        None
    }

    /// The file at `path`.
    pub fn get(&self, path: &str) -> (r: Option<&CodeFile>)
        ensures
            match find_file(self.files@, path@) {
                Some(i) => r == Some(&self.files@[i]),
                None => r is None,
            },
    {
        match self.position(path) {
            Some(i) => Some(&self.files[i]),
            None => None,
        }
    }

    /// Puts `f` in place of the file at its path, or adds it.
    pub fn insert(&mut self, f: CodeFile)
        ensures
            final(self).files@ == file_insert(old(self).files@, f),
            distinct_paths(old(self).files@) ==> distinct_paths(final(self).files@),
    {
        proof {
            if distinct_paths(self.files@) {
                lemma_insert_keeps_distinct(self.files@, f);
            }
        }
        match self.position(f.path.as_str()) {
            Some(i) => {
                let _ = self.files.remove(i);
                self.files.insert(i, f);
                assert(self.files@ =~= old(self).files@.update(i as int, f));
            },
            None => {
                self.files.push(f);
            },
        }
    }

    /// The files of `files` by path: for each path the last file at it.
    pub fn from_files(files: Vec<CodeFile>) -> (r: Self)
        ensures
            r.files@ == files_inserted(files@),
            distinct_paths(r.files@),
    {
        proof {
            lemma_inserted_distinct(files@);
        }
        let ghost all = files@;
        let mut files = files;
        let mut index = CodeIndex::new();
        let mut k: usize = 0;
        let n = files.len();
        assert(all.skip(0) =~= all);
        assert(all.take(0) =~= Seq::<CodeFile>::empty());
        while k < n
            invariant
                k <= n,
                n == all.len(),
                files@ == all.skip(k as int),
                index.files@ == files_inserted(all.take(k as int)),
            decreases n - k,
        {
            let f = files.remove(0);
            assert(files@ =~= all.skip(k + 1));
            assert(all.take(k + 1).drop_last() =~= all.take(k as int));
            index.insert(f);
            k = k + 1;
        }
        assert(all.take(n as int) =~= all);
        index
    }
}

// ---------------------------------------------------------------------------
// Looking up the callers of every function
// ---------------------------------------------------------------------------

/// The first entry of `cs` for the file `path`.
pub open spec fn find_caller(cs: Seq<(Seq<char>, Seq<int>)>, path: Seq<char>) -> Option<int>
    decreases cs.len(),
{
    if cs.len() == 0 {
        None
    } else if cs[0].0 == path {
        Some(0)
    } else {
        match find_caller(cs.drop_first(), path) {
            Some(i) => Some(i + 1),
            None => None,
        }
    }
}

/// `cs` with `lines` as the entry for the file `path`, in place of an
/// entry for it or added at the end.
pub open spec fn caller_insert(cs: Seq<(Seq<char>, Seq<int>)>, path: Seq<char>, lines: Seq<int>) -> Seq<
    (Seq<char>, Seq<int>),
> {
    match find_caller(cs, path) {
        Some(i) => cs.update(i, (path, lines)),
        None => cs.push((path, lines)),
    }
}

/// The call sites of the functions named `name`, by file: for each of
/// `files` in turn that calls `name`, its path and the lines of those calls.
pub open spec fn callers_for(files: Seq<CodeFile>, name: Seq<char>) -> Seq<(Seq<char>, Seq<int>)>
    decreases files.len(),
{
    if files.len() == 0 {
        seq![]
    } else {
        let prev = callers_for(files.drop_last(), name);
        let f = files.last();
        let ls = lines_named(file_calls(text::views(f.content@)), name);
        if ls.len() > 0 {
            caller_insert(prev, f.path@, ls)
        } else {
            prev
        }
    }
}

/// `t` with the call sites of each function of `names` in turn recorded,
/// by its full name, from the calls found in `files`.
pub open spec fn apply_callers(
    t: ir::TableView,
    names: Seq<(Seq<char>, Seq<char>)>,
    files: Seq<CodeFile>,
) -> ir::TableView
    decreases names.len(),
{
    if names.len() == 0 {
        t
    } else {
        let prev = apply_callers(t, names.drop_last(), files);
        ir::set_calls_spec(prev, names.last().0, callers_for(files, names.last().1)).0
    }
}

/// `out` is `files` with the calls of each file found.
pub open spec fn calls_found(files: Seq<CodeFile>, out: Seq<CodeFile>) -> bool {
    &&& out.len() == files.len()
    &&& forall|i: int|
        0 <= i < files.len() ==> (#[trigger] out[i]).path == files[i].path && out[i].content
            == files[i].content && call_views(out[i].func_calls@) == file_calls(
            text::views(files[i].content@),
        )
}

fn insert_caller(cs: &mut Vec<(String, Vec<usize>)>, path: String, lines: Vec<usize>)
    ensures
        ir::callers_view(final(cs)@) == caller_insert(ir::callers_view(old(cs)@), path@, text::ints(lines@)),
{
    let ghost old_v = ir::callers_view(cs@);
    let mut i: usize = 0;
    assert(old_v.skip(0) =~= old_v);
    while i < cs.len()
        invariant
            i <= cs@.len(),
            old_v == ir::callers_view(cs@),
            old_v == ir::callers_view(old(cs)@),
            find_caller(old_v, path@) == match find_caller(old_v.skip(i as int), path@) {
                Some(k) => Some(k + i),
                None => None,
            },
        decreases cs@.len() - i,
    {
        assert(old_v.skip(i as int).drop_first() =~= old_v.skip(i + 1));
        if cs[i].0 == path {
            assert(find_caller(old_v.skip(i as int), path@) == Some(0int));
            let _ = cs.remove(i);
            let ghost pv = path@;
            let ghost lv = text::ints(lines@);
            cs.insert(i, (path, lines));
            assert(ir::callers_view(cs@) =~= old_v.update(i as int, (pv, lv)));
            return;
        }
        i = i + 1;
    }
    let ghost pv = path@;
    let ghost lv = text::ints(lines@);
    cs.push((path, lines));
    assert(ir::callers_view(cs@) =~= old_v.push((pv, lv)));
}

/// Records on every function of `root` the places in `files` that call it
/// by name; returns the files, with the calls found in each, by path.
pub fn look_up_src_info(root: &mut ir::Table, files: Vec<CodeFile>) -> (r: CodeIndex)
    ensures
        final(root)@ == apply_callers(old(root)@, ir::function_names(old(root)@), files@),
        ir::distinct_full_names(ir::all_functions(old(root)@)) ==> ir::all_functions(final(root)@).len()
            == ir::all_functions(old(root)@).len() && forall|k: int|
            0 <= k < ir::all_functions(old(root)@).len() ==> #[trigger] ir::all_functions(final(root)@)[k]
                == ir::with_callers(
                ir::all_functions(old(root)@)[k],
                callers_for(files@, ir::all_functions(old(root)@)[k].name),
            ),
        exists|out: Seq<CodeFile>| #[trigger] calls_found(files@, out) && r.files@ == files_inserted(out),
{
    let look_ups = root.get_all_function_names();
    let ghost names = ir::function_names(root@);
    let ghost t0 = root@;
    let ghost all = files@;

    // Find the calls of every file.
    let mut files = files;
    let mut ext: Vec<CodeFile> = Vec::new();
    let n = files.len();
    let mut k: usize = 0;
    assert(all.skip(0) =~= all);
    while k < n
        invariant
            k <= n,
            n == all.len(),
            files@ == all.skip(k as int),
            ext@.len() == k,
            forall|i: int|
                0 <= i < k ==> (#[trigger] ext@[i]).path == all[i].path && ext@[i].content
                    == all[i].content && call_views(ext@[i].func_calls@) == file_calls(
                    text::views(all[i].content@),
                ),
        decreases n - k,
    {
        let mut f = files.remove(0);
        assert(files@ =~= all.skip(k + 1));
        f.extract_all_lua_func_calls();
        ext.push(f);
        k = k + 1;
    }
    assert(calls_found(all, ext@));

    // Record the callers of every function.
    let mut j: usize = 0;
    assert(names.take(0) =~= Seq::<(Seq<char>, Seq<char>)>::empty());
    while j < look_ups.len()
        invariant
            j <= look_ups@.len(),
            ir::pair_views(look_ups@) == names,
            names == ir::function_names(t0),
            calls_found(all, ext@),
            root@ == apply_callers(t0, names.take(j as int), all),
            ir::function_names(root@) == names,
        decreases look_ups@.len() - j,
    {
        let full = &look_ups[j].0;
        let name = &look_ups[j].1;
        let mut all_calls: Vec<(String, Vec<usize>)> = Vec::new();
        let mut m: usize = 0;
        assert(all.take(0) =~= Seq::<CodeFile>::empty());
        assert(ir::callers_view(all_calls@) =~= Seq::<(Seq<char>, Seq<int>)>::empty());
        while m < ext.len()
            invariant
                m <= ext@.len(),
                calls_found(all, ext@),
                ir::callers_view(all_calls@) == callers_for(all.take(m as int), name@),
            decreases ext@.len() - m,
        {
            let calls = ext[m].look_for_func_call(name.as_str());
            assert(all.take(m + 1).drop_last() =~= all.take(m as int));
            assert(all.take(m + 1).last() == all[m as int]);
            if calls.len() > 0 {
                let path = ext[m].path.clone();
                insert_caller(&mut all_calls, path, calls);
            }
            m = m + 1;
        }
        assert(all.take(ext@.len() as int) =~= all);
        proof {
            assert(names[j as int].0 == full@);
            assert(ir::names_contain(names, full@));
            ir::lemma_set_calls_finds(root@, full@, ir::callers_view(all_calls@));
            ir::lemma_set_calls_keeps_names(root@, full@, ir::callers_view(all_calls@));
        }
        let found = root.set_calls_by_full_name(full.as_str(), &all_calls);
        assert(found);
        assert(names.take(j + 1).drop_last() =~= names.take(j as int));
        j = j + 1;
    }
    assert(names.take(look_ups@.len() as int) =~= names);
    proof {
        if ir::distinct_full_names(ir::all_functions(t0)) {
            lemma_every_function_gets_its_callers(t0, all);
        }
    }
    let ghost out = ext@;
    let r = CodeIndex::from_files(ext);
    assert(calls_found(all, out) && r.files@ == files_inserted(out));
    r
}


// ---------------------------------------------------------------------------
// Which files are source files
// ---------------------------------------------------------------------------

/// `ext` equals one of `extensions`, ignoring ASCII case.
pub open spec fn extension_allowed(ext: Seq<char>, extensions: Seq<&str>) -> bool {
    exists|i: int|
        0 <= i < extensions.len() && text::to_ascii_lowercase(ext) == text::to_ascii_lowercase(
            #[trigger] extensions[i]@,
        )
}

/// Whether a file with the extension `ext` is a source file: its extension
/// equals one of `extensions`, ignoring ASCII case.
pub fn is_allowed_extension(ext: &str, extensions: &[&str]) -> (r: bool)
    ensures
        r == extension_allowed(ext@, extensions@),
{
    let e = text::ascii_lowercase_chars(ext);
    let mut i: usize = 0;
    while i < extensions.len()
        invariant
            i <= extensions@.len(),
            e@ == text::to_ascii_lowercase(ext@),
            forall|j: int|
                0 <= j < i ==> text::to_ascii_lowercase(ext@) != text::to_ascii_lowercase(
                    #[trigger] extensions@[j]@,
                ),
        decreases extensions@.len() - i,
    {
        let a = text::ascii_lowercase_chars(extensions[i]);
        if text::chars_eq(&e, &a) {
            return true;
        }
        i = i + 1;
    }
    false
}

/// A path with its backslashes turned into slashes.
pub fn normalize_path(path: &str) -> (r: String)
    ensures
        r@ == text::replace_all(path@, "\\"@, "/"@),
{
    proof {
        reveal_strlit("\\");
    }
    text::replace_str(path, "\\", "/")
}


// ---------------------------------------------------------------------------
// Laws
// ---------------------------------------------------------------------------

/// Putting a file in gives it back at its path, and leaves every other path
/// as it was.
pub proof fn lemma_insert_then_get(files: Seq<CodeFile>, f: CodeFile, path: Seq<char>)
    ensures
        file_at(file_insert(files, f), f.path@) == Some(f),
        path != f.path@ ==> file_at(file_insert(files, f), path) == file_at(files, path),
{
    let n = file_insert(files, f);
    lemma_find_file(files, f.path@);
    lemma_find_file(files, path);
    match find_file(files, f.path@) {
        Some(i) => {
            lemma_find_file_is(n, f.path@, i);
            if path != f.path@ {
                match find_file(files, path) {
                    Some(k) => {
                        lemma_find_file_is(n, path, k);
                    },
                    None => {
                        lemma_find_file(n, path);
                        if find_file(n, path) is Some {
                            let k = find_file(n, path)->0;
                            assert(n[k].path@ == path);
                            if k != i {
                                assert(n[k] == files[k]);
                            }
                        }
                    },
                }
            }
        },
        None => {
            lemma_find_file_is(n, f.path@, files.len() as int);
            if path != f.path@ {
                match find_file(files, path) {
                    Some(k) => {
                        lemma_find_file_is(n, path, k);
                    },
                    None => {
                        lemma_find_file(n, path);
                        if find_file(n, path) is Some {
                            let k = find_file(n, path)->0;
                            assert(n[k].path@ == path);
                            if k < files.len() {
                                assert(n[k] == files[k]);
                            }
                        }
                    },
                }
            }
        },
    }
}

/// The last file of `files` at `path`.
pub open spec fn last_at(files: Seq<CodeFile>, path: Seq<char>) -> Option<CodeFile>
    decreases files.len(),
{
    if files.len() == 0 {
        None
    } else if files.last().path@ == path {
        Some(files.last())
    } else {
        last_at(files.drop_last(), path)
    }
}

/// The index of files by path gives, for each path, the last of the files
/// at that path.
pub proof fn lemma_index_gives_last(files: Seq<CodeFile>, path: Seq<char>)
    ensures
        file_at(files_inserted(files), path) == last_at(files, path),
    decreases files.len(),
{
    if files.len() == 0 {
        lemma_find_file(Seq::<CodeFile>::empty(), path);
    } else {
        lemma_index_gives_last(files.drop_last(), path);
        lemma_insert_then_get(files_inserted(files.drop_last()), files.last(), path);
    }
}

/// Recording the callers of every function changes no name.
pub proof fn lemma_callers_keep_names(
    t: ir::TableView,
    names: Seq<(Seq<char>, Seq<char>)>,
    files: Seq<CodeFile>,
)
    ensures
        ir::function_names(apply_callers(t, names, files)) == ir::function_names(t),
    decreases names.len(),
{
    if names.len() > 0 {
        lemma_callers_keep_names(t, names.drop_last(), files);
        ir::lemma_set_calls_keeps_names(
            apply_callers(t, names.drop_last(), files),
            names.last().0,
            callers_for(files, names.last().1),
        );
    }
}


/// The file `f` calls `name` at line `l`, counted from 1.
pub open spec fn calls_at_line(f: CodeFile, name: Seq<char>, l: int) -> bool {
    let c = text::views(f.content@);
    1 <= l <= c.len() && line_calls(c[l - 1], 0).contains(name)
}

/// A file of `files` at `path` calls `name` at line `l`.
pub open spec fn is_real_call(files: Seq<CodeFile>, path: Seq<char>, name: Seq<char>, l: int) -> bool {
    exists|i: int| 0 <= i < files.len() && files[i].path@ == path && #[trigger] calls_at_line(files[i], name, l)
}

/// Every line of every entry of `cs` is a call of `name` in a file of
/// `files` at the entry's path.
pub open spec fn all_real_calls(files: Seq<CodeFile>, cs: Seq<(Seq<char>, Seq<int>)>, name: Seq<char>) -> bool {
    forall|e: int, m: int|
        0 <= e < cs.len() && 0 <= m < cs[e].1.len() ==> #[trigger] is_real_call(files, cs[e].0, name, cs[e].1[m])
}

/// Each call found in `content` is a call of its name at its line.
proof fn lemma_file_calls_real(content: Seq<Seq<char>>)
    ensures
        forall|k: int|
            0 <= k < file_calls(content).len() ==> 1 <= (#[trigger] file_calls(content)[k]).1 <= content.len()
                && line_calls(content[file_calls(content)[k].1 - 1], 0).contains(file_calls(content)[k].0),
    decreases content.len(),
{
    if content.len() > 0 {
        let prev = content.drop_last();
        lemma_file_calls_real(prev);
        let names = line_calls(content.last(), 0);
        let fc = file_calls(content);
        let pc = file_calls(prev);
        assert forall|k: int| 0 <= k < fc.len() implies 1 <= (#[trigger] fc[k]).1 <= content.len()
            && line_calls(content[fc[k].1 - 1], 0).contains(fc[k].0) by {
            if k < pc.len() {
                assert(fc[k] == pc[k]);
                assert(content[pc[k].1 - 1] == prev[pc[k].1 - 1]);
            } else {
                let j = k - pc.len();
                assert(fc[k] == (names[j], content.len() as int));
                assert(names[j] == names[j]);
            }
        }
    }
}

/// Each line of `lines_named(calls, name)` is the line of a call of `name`.
proof fn lemma_lines_named_in(calls: Seq<(Seq<char>, int)>, name: Seq<char>)
    ensures
        forall|m: int|
            0 <= m < lines_named(calls, name).len() ==> exists|k: int|
                0 <= k < calls.len() && calls[k] == (name, #[trigger] lines_named(calls, name)[m]),
    decreases calls.len(),
{
    if calls.len() > 0 {
        let prev = calls.drop_last();
        lemma_lines_named_in(prev, name);
        let ln = lines_named(calls, name);
        let lp = lines_named(prev, name);
        assert forall|m: int| 0 <= m < ln.len() implies exists|k: int|
            0 <= k < calls.len() && calls[k] == (name, #[trigger] ln[m]) by {
            if m < lp.len() {
                assert(ln[m] == lp[m]);
                let k = choose|k: int| 0 <= k < prev.len() && prev[k] == (name, lp[m]);
                assert(calls[k] == prev[k]);
            } else {
                assert(calls[calls.len() - 1] == (name, ln[m]));
            }
        }
    }
}

/// The lines that a file gives for `name` are calls of `name`.
proof fn lemma_lines_named_real(f: CodeFile, name: Seq<char>)
    ensures
        forall|m: int|
            0 <= m < lines_named(file_calls(text::views(f.content@)), name).len() ==> calls_at_line(
                f,
                name,
                #[trigger] lines_named(file_calls(text::views(f.content@)), name)[m],
            ),
{
    let c = text::views(f.content@);
    let fc = file_calls(c);
    lemma_file_calls_real(c);
    lemma_lines_named_in(fc, name);
    assert forall|m: int| 0 <= m < lines_named(fc, name).len() implies calls_at_line(
        f,
        name,
        #[trigger] lines_named(fc, name)[m],
    ) by {
        let k = choose|k: int| 0 <= k < fc.len() && fc[k] == (name, lines_named(fc, name)[m]);
        assert(fc[k] == fc[k]);
    }
}

/// `find_caller` gives a position of `cs`.
proof fn lemma_find_caller(cs: Seq<(Seq<char>, Seq<int>)>, path: Seq<char>)
    ensures
        find_caller(cs, path) matches Some(i) ==> 0 <= i < cs.len() && cs[i].0 == path,
    decreases cs.len(),
{
    if cs.len() > 0 && cs[0].0 != path {
        lemma_find_caller(cs.drop_first(), path);
    }
}

/// The call sites recorded for a name are calls of that name: each line of
/// each entry is a line of a file at the entry's path where `name` is
/// called.
pub proof fn lemma_callers_are_calls(files: Seq<CodeFile>, name: Seq<char>)
    ensures
        all_real_calls(files, callers_for(files, name), name),
    decreases files.len(),
{
    if files.len() > 0 {
        let pre = files.drop_last();
        lemma_callers_are_calls(pre, name);
        let prev = callers_for(pre, name);
        assert forall|e: int, m: int| 0 <= e < prev.len() && 0 <= m < prev[e].1.len() implies #[trigger] is_real_call(
            files,
            prev[e].0,
            name,
            prev[e].1[m],
        ) by {
            assert(is_real_call(pre, prev[e].0, name, prev[e].1[m]));
            let i = choose|i: int|
                0 <= i < pre.len() && pre[i].path@ == prev[e].0 && #[trigger] calls_at_line(
                    pre[i],
                    name,
                    prev[e].1[m],
                );
            assert(files[i] == pre[i]);
        }
        let f = files.last();
        let ls = lines_named(file_calls(text::views(f.content@)), name);
        lemma_lines_named_real(f, name);
        if ls.len() > 0 {
            lemma_find_caller(prev, f.path@);
            let n = caller_insert(prev, f.path@, ls);
            assert forall|e: int, m: int| 0 <= e < n.len() && 0 <= m < n[e].1.len() implies #[trigger] is_real_call(
                files,
                n[e].0,
                name,
                n[e].1[m],
            ) by {
                if n[e] == (f.path@, ls) {
                    assert(calls_at_line(files[files.len() - 1], name, ls[m]));
                } else {
                    assert(n[e] == prev[e]);
                }
            }
        }
    }
}


/// The functions `fl` with the call sites of the first `j` set to those of
/// their names in `files`.
pub open spec fn callers_set_upto(fl: Seq<ir::FunctionView>, files: Seq<CodeFile>, j: int) -> Seq<ir::FunctionView> {
    Seq::new(
        fl.len(),
        |k: int|
            if k < j {
                ir::with_callers(fl[k], callers_for(files, fl[k].name))
            } else {
                fl[k]
            },
    )
}

proof fn lemma_apply_callers_prefix(t: ir::TableView, files: Seq<CodeFile>, j: int)
    requires
        0 <= j <= ir::all_functions(t).len(),
        ir::distinct_full_names(ir::all_functions(t)),
    ensures
        ir::all_functions(apply_callers(t, ir::function_names(t).take(j), files)) == callers_set_upto(
            ir::all_functions(t),
            files,
            j,
        ),
    decreases j,
{
    let fl = ir::all_functions(t);
    let names = ir::function_names(t);
    ir::lemma_function_names_all(t);
    if j == 0 {
        assert(names.take(0) =~= Seq::<(Seq<char>, Seq<char>)>::empty());
        assert(callers_set_upto(fl, files, 0) =~= fl);
    } else {
        lemma_apply_callers_prefix(t, files, j - 1);
        assert(names.take(j).drop_last() =~= names.take(j - 1));
        assert(names.take(j).last() == (fl[j - 1].full_name, fl[j - 1].name));
        let prev = apply_callers(t, names.take(j - 1), files);
        let pf = ir::all_functions(prev);
        let full = fl[j - 1].full_name;
        let calls = callers_for(files, fl[j - 1].name);
        ir::lemma_set_calls_all(prev, full, calls);
        assert forall|m: int| 0 <= m < j - 1 implies pf[m].full_name != full by {
            assert(pf[m].full_name == fl[m].full_name);
        }
        ir::lemma_find_function_full_is(pf, full, j - 1);
        assert(ir::all_functions(apply_callers(t, names.take(j), files)) =~= callers_set_upto(fl, files, j));
    }
}

/// Looking up the callers gives every function of the tree the call sites of
/// its own name and changes nothing else; so two functions of the same name
/// get the same callers. (Each function is found by its full name, so the
/// full names must differ.)
pub proof fn lemma_every_function_gets_its_callers(t: ir::TableView, files: Seq<CodeFile>)
    requires
        ir::distinct_full_names(ir::all_functions(t)),
    ensures
        ir::all_functions(apply_callers(t, ir::function_names(t), files)).len() == ir::all_functions(t).len(),
        forall|k: int|
            0 <= k < ir::all_functions(t).len() ==> #[trigger] ir::all_functions(
                apply_callers(t, ir::function_names(t), files),
            )[k] == ir::with_callers(ir::all_functions(t)[k], callers_for(files, ir::all_functions(t)[k].name)),
        forall|i: int, k: int|
            0 <= i < ir::all_functions(t).len() && 0 <= k < ir::all_functions(t).len()
                && ir::all_functions(t)[i].name == ir::all_functions(t)[k].name ==> (#[trigger] ir::all_functions(
                apply_callers(t, ir::function_names(t), files),
            )[i]).callers == (#[trigger] ir::all_functions(apply_callers(t, ir::function_names(t), files))[k]).callers,
{
    let fl = ir::all_functions(t);
    ir::lemma_function_names_all(t);
    let names = ir::function_names(t);
    assert(names.take(fl.len() as int) =~= names);
    lemma_apply_callers_prefix(t, files, fl.len() as int);
}


// ---------------------------------------------------------------------------
// What the calls of a line depend on
// ---------------------------------------------------------------------------

/// `id` is an identifier: a letter or `_`, then letters, digits or `_`.
pub open spec fn is_identifier(id: Seq<char>) -> bool {
    id.len() > 0 && is_ident_start(id[0]) && forall|k: int| 0 <= k < id.len() ==> is_ident_char(#[trigger] id[k])
}

proof fn lemma_ident_end_skip(s: Seq<char>, i: int, x: int)
    requires
        0 <= i <= s.len(),
        0 <= x,
    ensures
        ident_end(s, x + i) == ident_end(s.skip(i), x) + i,
    decreases s.len() - (x + i),
{
    if x + i < s.len() {
        assert(s.skip(i)[x] == s[x + i]);
        if is_ident_char(s[x + i]) {
            lemma_ident_end_skip(s, i, x + 1);
        }
    }
}

proof fn lemma_line_calls_skip(s: Seq<char>, i: int, j: int)
    requires
        0 <= i <= s.len(),
        0 <= j,
    ensures
        line_calls(s, i + j) == line_calls(s.skip(i), j),
    decreases s.len() - (i + j),
{
    let t = s.skip(i);
    if i + j < s.len() {
        assert(t[j] == s[i + j]);
        if is_ident_start(s[i + j]) {
            lemma_ident_end(s, i + j + 1);
            lemma_ident_end_skip(s, i, j + 1);
            let e = ident_end(s, i + j + 1);
            assert(t.subrange(j, e - i) =~= s.subrange(i + j, e));
            assert(t.skip(e - i) =~= s.skip(e));
            lemma_line_calls_skip(s, i, e - i);
        } else {
            lemma_line_calls_skip(s, i, j + 1);
        }
    }
}

/// The calls found from a position on depend only on the line from there
/// on, not on what comes before it.
pub proof fn lemma_line_calls_from(s: Seq<char>, i: int)
    requires
        0 <= i <= s.len(),
    ensures
        line_calls(s, i) == line_calls(s.skip(i), 0),
{
    lemma_line_calls_skip(s, i, 0);
}

/// A character that cannot start a name is passed over: the line without
/// it has the same calls.
pub proof fn lemma_line_calls_skip_first(s: Seq<char>)
    requires
        s.len() > 0,
        !is_ident_start(s[0]),
    ensures
        line_calls(s, 0) == line_calls(s.drop_first(), 0),
{
    lemma_line_calls_skip(s, 1, 0);
    assert(s.skip(1) =~= s.drop_first());
}

/// A line that starts with a name: the name is a call where it is not
/// `function` and the rest, after whitespace, starts with `(`; the calls
/// after it are those of the rest of the line.
pub proof fn lemma_line_calls_name_first(id: Seq<char>, rest: Seq<char>)
    requires
        is_identifier(id),
        rest.len() == 0 || !is_ident_char(rest[0]),
    ensures
        line_calls(id + rest, 0) == (if id != "function"@ && text::trim_start(rest).len() > 0
            && text::trim_start(rest)[0] == '(' {
            seq![id]
        } else {
            Seq::<Seq<char>>::empty()
        }) + line_calls(rest, 0),
{
    let s = id + rest;
    let n = id.len() as int;
    assert(s[0] == id[0]);
    lemma_ident_end(s, 1);
    let e = ident_end(s, 1);
    if e < n {
        assert(s[e] == id[e]);
        assert(is_ident_char(id[e]));
    }
    if e > n {
        assert(s[n] == rest[0]);
    }
    assert(e == n);
    assert(s.subrange(0, n) =~= id);
    assert(s.skip(n) =~= rest);
    lemma_line_calls_skip(s, n, 0);
}

proof fn lemma_trim_start_concat(x: Seq<char>, y: Seq<char>, m: int)
    requires
        0 <= m < x.len(),
        !text::is_whitespace(x[m]),
    ensures
        text::trim_start(x + y) == text::trim_start(x) + y,
        text::trim_start(x).len() > 0,
    decreases x.len(),
{
    assert((x + y)[0] == x[0]);
    if text::is_whitespace(x[0]) {
        assert((x + y).drop_first() =~= x.drop_first() + y);
        assert(x.drop_first()[m - 1] == x[m]);
        lemma_trim_start_concat(x.drop_first(), y, m - 1);
    }
}

proof fn lemma_ident_end_take(s: Seq<char>, k: int, x: int)
    requires
        0 <= x <= k < s.len(),
        !is_ident_char(s[k]),
    ensures
        ident_end(s.take(k + 1), x) == ident_end(s, x),
        ident_end(s, x) <= k,
    decreases k - x,
{
    assert(s.take(k + 1)[x] == s[x]);
    if is_ident_char(s[x]) {
        lemma_ident_end_take(s, k, x + 1);
    }
}

proof fn lemma_line_calls_take(s: Seq<char>, k: int, i: int)
    requires
        0 <= k < s.len(),
        !is_ident_char(s[k]),
        !text::is_whitespace(s[k]),
        0 <= i <= k + 1,
    ensures
        line_calls(s, i) == line_calls(s.take(k + 1), i) + line_calls(s, k + 1),
    decreases k + 1 - i,
{
    let p = s.take(k + 1);
    if i == k + 1 {
        assert(line_calls(p, i) + line_calls(s, k + 1) =~= line_calls(s, k + 1));
    } else {
        assert(p[i] == s[i]);
        if is_ident_start(s[i]) {
            lemma_ident_end_take(s, k, i + 1);
            let e = ident_end(s, i + 1);
            lemma_ident_end(s, i + 1);
            assert(p.subrange(i, e) =~= s.subrange(i, e));
            assert(s.skip(e) =~= p.skip(e) + s.skip(k + 1));
            assert(p.skip(e)[k - e] == s[k]);
            lemma_trim_start_concat(p.skip(e), s.skip(k + 1), k - e);
            assert(followed_by_paren(s, e) == followed_by_paren(p, e));
            lemma_line_calls_take(s, k, e);
            let here: Seq<Seq<char>> = if s.subrange(i, e) != "function"@ && followed_by_paren(s, e) {
                seq![s.subrange(i, e)]
            } else {
                seq![]
            };
            assert(line_calls(s, i) == here + line_calls(s, e));
            assert(line_calls(p, i) == here + line_calls(p, e));
            assert(here + (line_calls(p, e) + line_calls(s, k + 1)) =~= (here + line_calls(p, e))
                + line_calls(s, k + 1));
        } else {
            lemma_line_calls_take(s, k, i + 1);
        }
    }
}

/// A line splits at a character that is neither part of a name nor
/// whitespace (such as `.`, `:`, `=` or `,`): its calls are those of the
/// part up to that character followed by those of the part after it. So a
/// name after `obj.` or `obj:` is found as it would be at the start of a
/// line.
pub proof fn lemma_line_calls_split(s: Seq<char>, k: int)
    requires
        0 <= k < s.len(),
        !is_ident_char(s[k]),
        !text::is_whitespace(s[k]),
    ensures
        line_calls(s, 0) == line_calls(s.take(k + 1), 0) + line_calls(s.skip(k + 1), 0),
{
    lemma_line_calls_take(s, k, 0);
    lemma_line_calls_skip(s, k + 1, 0);
}


// ---------------------------------------------------------------------------
// Every call is found
// ---------------------------------------------------------------------------

/// Line `l` (counted from 1) of `content` calls `n`.
pub open spec fn calls_on_line(content: Seq<Seq<char>>, l: int, n: Seq<char>) -> bool {
    1 <= l <= content.len() && line_calls(content[l - 1], 0).contains(n)
}

proof fn lemma_file_calls_complete(content: Seq<Seq<char>>, l: int, m: int)
    requires
        1 <= l <= content.len(),
        0 <= m < line_calls(content[l - 1], 0).len(),
    ensures
        exists|k: int|
            0 <= k < file_calls(content).len() && file_calls(content)[k] == (
                line_calls(content[l - 1], 0)[m],
                l,
            ),
    decreases content.len(),
{
    let prev = content.drop_last();
    let pc = file_calls(prev);
    let fc = file_calls(content);
    if l < content.len() {
        assert(content[l - 1] == prev[l - 1]);
        lemma_file_calls_complete(prev, l, m);
        let k = choose|k: int| 0 <= k < pc.len() && pc[k] == (line_calls(prev[l - 1], 0)[m], l);
        assert(fc[k] == pc[k]);
    } else {
        let k = pc.len() + m;
        assert(fc[k] == (line_calls(content.last(), 0)[m], content.len() as int));
    }
}

/// The calls found in a file are exactly the calls of its lines: a name and
/// a line are listed if and only if that line (counted from 1) calls the
/// name.
pub proof fn lemma_file_calls_are_the_line_calls(content: Seq<Seq<char>>)
    ensures
        forall|n: Seq<char>, l: int|
            #![trigger file_calls(content).contains((n, l))]
            #![trigger calls_on_line(content, l, n)]
            file_calls(content).contains((n, l)) <==> calls_on_line(content, l, n),
{
    lemma_file_calls_real(content);
    let fc = file_calls(content);
    assert forall|n: Seq<char>, l: int| fc.contains((n, l)) <==> calls_on_line(content, l, n) by {
        if fc.contains((n, l)) {
            let k = choose|k: int| 0 <= k < fc.len() && fc[k] == (n, l);
            assert(fc[k] == fc[k]);
        }
        if calls_on_line(content, l, n) {
            let lc = line_calls(content[l - 1], 0);
            let m = choose|m: int| 0 <= m < lc.len() && lc[m] == n;
            lemma_file_calls_complete(content, l, m);
        }
    }
}

/// The lines of `f` that call `name`, in order.
pub open spec fn file_lines_calling(f: CodeFile, name: Seq<char>) -> Seq<int> {
    lines_named(file_calls(text::views(f.content@)), name)
}

/// No two entries of `cs` are for the same file.
pub open spec fn distinct_caller_paths(cs: Seq<(Seq<char>, Seq<int>)>) -> bool {
    forall|a: int, b: int| 0 <= a < b < cs.len() ==> #[trigger] cs[a].0 != #[trigger] cs[b].0
}

proof fn lemma_find_caller_none(cs: Seq<(Seq<char>, Seq<int>)>, path: Seq<char>)
    ensures
        find_caller(cs, path) is None ==> forall|e: int| 0 <= e < cs.len() ==> cs[e].0 != path,
        find_caller(cs, path) matches Some(i) ==> 0 <= i < cs.len() && cs[i].0 == path,
    decreases cs.len(),
{
    if cs.len() > 0 && cs[0].0 != path {
        lemma_find_caller_none(cs.drop_first(), path);
        assert forall|e: int| 1 <= e < cs.len() implies cs[e] == cs.drop_first()[e - 1] by {}
    }
}

/// Every file that calls `name` has an entry for its path; the entry of a
/// path holds the call lines of the last file at that path that calls
/// `name`; and no two entries are for the same path.
pub proof fn lemma_callers_complete(files: Seq<CodeFile>, name: Seq<char>)
    ensures
        distinct_caller_paths(callers_for(files, name)),
        forall|i: int|
            0 <= i < files.len() && (#[trigger] file_lines_calling(files[i], name)).len() > 0 ==> exists|e: int|
                0 <= e < callers_for(files, name).len() && callers_for(files, name)[e].0 == files[i].path@,
        forall|i: int|
            0 <= i < files.len() && (#[trigger] file_lines_calling(files[i], name)).len() > 0 && (forall|j: int|
                i < j < files.len() && files[j].path@ == files[i].path@ ==> file_lines_calling(files[j], name).len()
                    == 0) ==> callers_for(files, name).contains((files[i].path@, file_lines_calling(files[i], name))),
    decreases files.len(),
{
    if files.len() > 0 {
        let pre = files.drop_last();
        lemma_callers_complete(pre, name);
        let cp = callers_for(pre, name);
        let cf = callers_for(files, name);
        let f = files.last();
        let last = files.len() - 1;
        let ls = file_lines_calling(f, name);
        assert forall|i: int| 0 <= i < last implies files[i] == pre[i] by {}
        lemma_find_caller_none(cp, f.path@);
        if ls.len() == 0 {
            assert(cf == cp);
            assert forall|i: int|
                0 <= i < files.len() && (#[trigger] file_lines_calling(files[i], name)).len() > 0 implies exists|e: int|
                0 <= e < cf.len() && cf[e].0 == files[i].path@ by {
                assert(files[i] == pre[i]);
            }
            assert forall|i: int|
                0 <= i < files.len() && (#[trigger] file_lines_calling(files[i], name)).len() > 0 && (forall|j: int|
                    i < j < files.len() && files[j].path@ == files[i].path@ ==> file_lines_calling(files[j], name).len()
                        == 0) implies cf.contains((files[i].path@, file_lines_calling(files[i], name))) by {
                assert(files[i] == pre[i]);
                assert forall|j: int| i < j < pre.len() && pre[j].path@ == pre[i].path@ implies file_lines_calling(
                    pre[j],
                    name,
                ).len() == 0 by {
                    assert(pre[j] == files[j]);
                }
            }
        } else {
            let p = f.path@;
            assert(cf == caller_insert(cp, p, ls));
            let idx: int = match find_caller(cp, p) {
                Some(i) => i,
                None => cp.len() as int,
            };
            assert(cf.len() == if find_caller(cp, p) is Some { cp.len() } else { cp.len() + 1 });
            assert(cf[idx] == (p, ls));
            assert forall|e: int| 0 <= e < cf.len() && e != idx implies cf[e] == cp[e] && cp[e].0 != p by {}
            assert forall|a: int, b: int| 0 <= a < b < cf.len() implies #[trigger] cf[a].0 != #[trigger] cf[b].0 by {
                if a != idx && b != idx {
                    assert(cf[a] == cp[a] && cf[b] == cp[b]);
                }
            }
            assert forall|i: int|
                0 <= i < files.len() && (#[trigger] file_lines_calling(files[i], name)).len() > 0 implies exists|e: int|
                0 <= e < cf.len() && cf[e].0 == files[i].path@ by {
                if i == last || files[i].path@ == p {
                    assert(cf[idx].0 == files[i].path@);
                } else {
                    assert(files[i] == pre[i]);
                    let e = choose|e: int| 0 <= e < cp.len() && cp[e].0 == pre[i].path@;
                    assert(e != idx);
                    assert(cf[e] == cp[e]);
                }
            }
            assert forall|i: int|
                0 <= i < files.len() && (#[trigger] file_lines_calling(files[i], name)).len() > 0 && (forall|j: int|
                    i < j < files.len() && files[j].path@ == files[i].path@ ==> file_lines_calling(files[j], name).len()
                        == 0) implies cf.contains((files[i].path@, file_lines_calling(files[i], name))) by {
                if i == last {
                    assert(cf[idx] == (files[i].path@, file_lines_calling(files[i], name)));
                } else {
                    assert(files[i] == pre[i]);
                    assert(files[i].path@ != p) by {
                        if files[i].path@ == p {
                            assert(file_lines_calling(files[last], name).len() == 0);
                        }
                    }
                    assert forall|j: int| i < j < pre.len() && pre[j].path@ == pre[i].path@ implies file_lines_calling(
                        pre[j],
                        name,
                    ).len() == 0 by {
                        assert(pre[j] == files[j]);
                    }
                    let e = choose|e: int| 0 <= e < cp.len() && cp[e] == (pre[i].path@, file_lines_calling(pre[i], name));
                    assert(e != idx);
                    assert(cf[e] == cp[e]);
                }
            }
        }
    }
}


/// The run of lines that `comment_start` finds above index `k`: every line
/// from it up to `k` is a comment or blank, and the line right above it, if
/// any, is not.
pub proof fn lemma_comment_start(content: Seq<Seq<char>>, k: int)
    requires
        0 <= k <= content.len(),
    ensures
        0 <= comment_start(content, k) <= k,
        forall|m: int| comment_start(content, k) <= m < k ==> is_comment_or_blank(#[trigger] content[m]),
        comment_start(content, k) > 0 ==> !is_comment_or_blank(content[comment_start(content, k) - 1]),
    decreases k,
{
    if k > 0 && is_comment_or_blank(content[k - 1]) {
        lemma_comment_start(content, k - 1);
    }
}

} // verus!
