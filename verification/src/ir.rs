//! The documentation tree: tables and functions with their full names, and
//! for each function the line that defines it in its source file.
use vstd::prelude::*;
use std::collections::VecDeque;
use crate::data;
use crate::text;

verus! {

broadcast use vstd::string::group_string_axioms;

// ---------------------------------------------------------------------------
// Types and their models
// ---------------------------------------------------------------------------

/// A table or a function of the tree.
#[derive(Debug)]
pub enum Node {
    Table(Table),
    Function(Function),
}

/// A table: its dotted full name, its own name, its nested tables and its
/// functions.
#[derive(Debug)]
pub struct Table {
    pub full_name: String,
    pub name: String,
    pub children: Vec<Table>,
    pub functions: Vec<Function>,
}

/// A function: its dotted full name, its own name, the source file it is
/// defined in (relative to the game directory), the text of the line that
/// defines it, the last and the first line of its definition, and the call
/// sites found for it, by file.
#[derive(Debug)]
pub struct Function {
    pub full_name: String,
    pub name: String,
    pub source: String,
    pub func_def: String,
    pub func_def_line: isize,
    pub func_def_start: isize,
    pub callers: Vec<(String, Vec<usize>)>,
}

/// The model of a `Function`.
pub struct FunctionView {
    pub full_name: Seq<char>,
    pub name: Seq<char>,
    pub source: Seq<char>,
    pub func_def: Seq<char>,
    pub func_def_line: int,
    pub func_def_start: int,
    pub callers: Seq<(Seq<char>, Seq<int>)>,
}

/// The model of a `Table`.
pub struct TableView {
    pub full_name: Seq<char>,
    pub name: Seq<char>,
    pub children: Seq<TableView>,
    pub functions: Seq<FunctionView>,
}

/// The model of a `Node`.
pub enum NodeView {
    Table(TableView),
    Function(FunctionView),
}

/// The model of a list of call sites by file.
pub open spec fn callers_view(c: Seq<(String, Vec<usize>)>) -> Seq<(Seq<char>, Seq<int>)> {
    Seq::new(c.len(), |i: int| (c[i].0@, text::ints(c[i].1@)))
}

impl View for Function {
    type V = FunctionView;

    open spec fn view(&self) -> FunctionView {
        FunctionView {
            full_name: self.full_name@,
            name: self.name@,
            source: self.source@,
            func_def: self.func_def@,
            func_def_line: self.func_def_line as int,
            func_def_start: self.func_def_start as int,
            callers: callers_view(self.callers@),
        }
    }
}

/// The models of a list of functions.
pub open spec fn function_views(v: Seq<Function>) -> Seq<FunctionView> {
    Seq::new(v.len(), |i: int| v[i]@)
}

impl View for Table {
    type V = TableView;

    open spec fn view(&self) -> TableView
        decreases self,
    {
        TableView {
            full_name: self.full_name@,
            name: self.name@,
            children: Seq::new(
                self.children@.len(),
                |i: int|
                    if 0 <= i < self.children@.len() {
                        self.children@[i].view()
                    } else {
                        TableView {
                            full_name: seq![],
                            name: seq![],
                            children: seq![],
                            functions: seq![],
                        }
                    },
            ),
            functions: function_views(self.functions@),
        }
    }
}

/// The fields of a table's model.
pub broadcast proof fn lemma_table_view(t: Table)
    ensures
        #![trigger t.view()]
        t@.name == t.name@,
        t@.full_name == t.full_name@,
        t@.children.len() == t.children@.len(),
        forall|i: int| 0 <= i < t.children@.len() ==> t@.children[i] == #[trigger] t.children@[i]@,
        t@.functions == function_views(t.functions@),
{
}

/// The models of a list of tables.
pub open spec fn table_views(v: Seq<Table>) -> Seq<TableView> {
    Seq::new(v.len(), |i: int| v[i]@)
}

impl View for Node {
    type V = NodeView;

    open spec fn view(&self) -> NodeView {
        match self {
            Node::Table(t) => NodeView::Table(t@),
            Node::Function(f) => NodeView::Function(f@),
        }
    }
}

/// A copy of a list of call sites.
fn clone_callers(c: &Vec<(String, Vec<usize>)>) -> (r: Vec<(String, Vec<usize>)>)
    ensures
        callers_view(r@) == callers_view(c@),
{
    let mut r: Vec<(String, Vec<usize>)> = Vec::new();
    let mut i: usize = 0;
    while i < c.len()
        invariant
            i <= c@.len(),
            r@.len() == i,
            forall|j: int| 0 <= j < i ==> #[trigger] r@[j].0@ == c@[j].0@ && r@[j].1@ == c@[j].1@,
        decreases c@.len() - i,
    {
        let lines = c[i].1.clone();
        assert(lines@ =~= c@[i as int].1@);
        r.push((c[i].0.clone(), lines));
        i = i + 1;
    }
    assert(callers_view(r@) =~= callers_view(c@));
    r
}

impl Clone for Function {
    fn clone(&self) -> (r: Self)
        ensures
            r@ == self@,
    {
        Function {
            full_name: self.full_name.clone(),
            name: self.name.clone(),
            source: self.source.clone(),
            func_def: self.func_def.clone(),
            func_def_line: self.func_def_line,
            func_def_start: self.func_def_start,
            callers: clone_callers(&self.callers),
        }
    }
}

impl Clone for Table {
    fn clone(&self) -> (r: Self)
        ensures
            r@ == self@,
        decreases self,
    {
        let mut children: Vec<Table> = Vec::new();
        let mut i: usize = 0;
        while i < self.children.len()
            invariant
                i <= self.children@.len(),
                children@.len() == i,
                forall|j: int| 0 <= j < i ==> #[trigger] children@[j]@ == self.children@[j]@,
            decreases self.children@.len() - i,
        {
            let c = self.children[i].clone();
            children.push(c);
            i = i + 1;
        }
        let mut functions: Vec<Function> = Vec::new();
        let mut k: usize = 0;
        while k < self.functions.len()
            invariant
                k <= self.functions@.len(),
                functions@.len() == k,
                forall|j: int| 0 <= j < k ==> #[trigger] functions@[j]@ == self.functions@[j]@,
            decreases self.functions@.len() - k,
        {
            functions.push(self.functions[k].clone());
            k = k + 1;
        }
        let r = Table {
            full_name: self.full_name.clone(),
            name: self.name.clone(),
            children,
            functions,
        };
        assert forall|j: int| 0 <= j < r@.children.len() implies r@.children[j]
            == self@.children[j] by {
            assert(children@[j]@ == self.children@[j]@);
        }
        assert(r@.children =~= self@.children);
        assert(r@.functions =~= self@.functions);
        r
    }
}

impl Clone for Node {
    fn clone(&self) -> (r: Self)
        ensures
            r@ == self@,
    {
        match self {
            Node::Table(t) => Node::Table(t.clone()),
            Node::Function(f) => Node::Function(f.clone()),
        }
    }
}

impl Node {
    /// The name of the table or function.
    pub fn name(&self) -> (r: &str)
        ensures
            r@ == match self@ {
                NodeView::Table(t) => t.name,
                NodeView::Function(f) => f.name,
            },
    {
        match self {
            Self::Table(t) => t.name.as_str(),
            Self::Function(f) => f.name.as_str(),
        }
    }
}


// ---------------------------------------------------------------------------
// Building the tree from the dump
// ---------------------------------------------------------------------------

/// Why a source file could not be read, by the kind of the I/O error.
#[derive(Debug)]
pub enum ReadError {
    NotFound,
    PermissionDenied,
    /// The file is not valid UTF-8; the error's message.
    InvalidData(String),
    UnexpectedEof,
    /// Any other error; the error's message.
    Other(String),
}

/// The outcome of reading one source file.
#[derive(Debug)]
pub struct SourceRead {
    pub path: String,
    pub result: Result<String, ReadError>,
}

/// The outcomes of reading the source files that a dump refers to.
#[derive(Debug)]
pub struct SourceReads {
    pub reads: Vec<SourceRead>,
}

/// The first read of `path` in `reads`.
pub open spec fn find_read(reads: Seq<SourceRead>, path: Seq<char>) -> Option<int>
    decreases reads.len(),
{
    if reads.len() == 0 {
        None
    } else if reads[0].path@ == path {
        Some(0)
    } else {
        match find_read(reads.drop_first(), path) {
            Some(i) => Some(i + 1),
            None => None,
        }
    }
}

/// `reads` holds a read of `path`.
pub open spec fn has_read(reads: Seq<SourceRead>, path: Seq<char>) -> bool {
    find_read(reads, path) is Some
}

/// The source name with the chunk markers `@/` and `@` removed.
pub open spec fn clean_source(src: Seq<char>) -> Seq<char> {
    text::replace_all(text::replace_all(src, "@/"@, ""@), "@"@, ""@)
}

/// The definition shown for a function whose source is not read.
pub open spec fn default_def(name: Seq<char>) -> Seq<char> {
    "function "@ + name + "(...)"@
}

/// The function is defined in a Lua file that can be read: it is not a C
/// function and its first line is known.
pub open spec fn reads_source_file(f: data::Function) -> bool {
    !text::contains(f.source@, "[C]"@) && f.linedefined >= 0
}

/// The path of the function's source file under `game_dir`.
pub open spec fn source_path(game_dir: Seq<char>, f: data::Function) -> Seq<char> {
    game_dir + clean_source(f.source@)
}

/// The message shown for a failed read.
pub open spec fn read_error_message(e: ReadError) -> Seq<char> {
    match e {
        ReadError::NotFound => "source file not found"@,
        ReadError::PermissionDenied => "permission denied reading"@,
        ReadError::InvalidData(m) => m@,
        ReadError::UnexpectedEof => "unexpected eof"@,
        ReadError::Other(m) => "failed to read "@ + m@,
    }
}

/// The message for a file that has fewer lines than the definition's line.
pub open spec fn missing_line_message(line: int, path: Seq<char>) -> Seq<char> {
    "could not find function definition line "@ + text::int_decimal(line) + " in "@ + path
}

/// The definition line of a function that starts at line `first` (counted
/// from 1) of the file at `path`, given what reading the file gave; or the
/// default definition with the reason it could not be shown.
pub open spec fn def_from_read(
    name: Seq<char>,
    first: int,
    path: Seq<char>,
    outcome: Result<String, ReadError>,
) -> Seq<char> {
    let found: Result<Seq<char>, Seq<char>> = match outcome {
        Ok(content) => {
            let ls = text::lines(content@);
            if 0 <= first - 1 < ls.len() {
                Ok(ls[first - 1])
            } else {
                Err(missing_line_message(first, path))
            }
        },
        Err(e) => Err(read_error_message(e)),
    };
    match found {
        Ok(line) => line,
        Err(msg) => "function "@ + name + "(...) -- (err reading file: "@ + msg + ")"@,
    }
}

/// The definition line of `f`.
pub open spec fn func_def_of(game_dir: Seq<char>, f: data::Function, reads: Seq<SourceRead>) -> Seq<
    char,
> {
    if reads_source_file(f) {
        let path = source_path(game_dir, f);
        def_from_read(f.docs_name@, f.linedefined as int, path, reads[find_read(reads, path)->0].result)
    } else {
        default_def(f.docs_name@)
    }
}

/// The function of the tree built from `f` under the table named `parent`.
pub open spec fn function_from_data(
    game_dir: Seq<char>,
    parent: Seq<char>,
    f: data::Function,
    reads: Seq<SourceRead>,
) -> FunctionView {
    FunctionView {
        full_name: parent + "."@ + f.docs_name@,
        name: f.docs_name@,
        source: clean_source(f.source@),
        func_def: func_def_of(game_dir, f, reads),
        func_def_line: f.lastlinedefined as int,
        func_def_start: f.linedefined as int,
        callers: seq![],
    }
}

/// The full name of a table or function named `name` under `parent`.
pub open spec fn dotted(parent: Seq<char>, name: Seq<char>) -> Seq<char> {
    parent + "."@ + name
}

/// The table of the tree built from `t` under the table named `parent`:
/// its nested tables and its functions, in the order of its entries; other
/// entries are left out.
pub open spec fn table_from_data(
    game_dir: Seq<char>,
    parent: Seq<char>,
    t: data::Table,
    reads: Seq<SourceRead>,
) -> TableView
    decreases t,
{
    let full = dotted(parent, t.docs_name@);
    TableView {
        full_name: full,
        name: t.docs_name@,
        children: children_from_params(game_dir, full, t.params@, reads),
        functions: functions_from_params(game_dir, full, t.params@, reads),
    }
}

/// The tables built from the table entries of `params`.
pub open spec fn children_from_params(
    game_dir: Seq<char>,
    full: Seq<char>,
    params: Seq<(String, data::Node)>,
    reads: Seq<SourceRead>,
) -> Seq<TableView>
    decreases params,
{
    if params.len() == 0 {
        seq![]
    } else {
        let head = match params[0].1 {
            data::Node::Table(t) => seq![table_from_data(game_dir, full, t, reads)],
            _ => seq![],
        };
        head + children_from_params(game_dir, full, params.drop_first(), reads)
    }
}

/// The functions built from the function entries of `params`.
pub open spec fn functions_from_params(
    game_dir: Seq<char>,
    full: Seq<char>,
    params: Seq<(String, data::Node)>,
    reads: Seq<SourceRead>,
) -> Seq<FunctionView>
    decreases params.len(),
{
    if params.len() == 0 {
        seq![]
    } else {
        let head = match params[0].1 {
            data::Node::Function(f) => seq![function_from_data(game_dir, full, f, reads)],
            _ => seq![],
        };
        head + functions_from_params(game_dir, full, params.drop_first(), reads)
    }
}

/// `reads` holds a read of every source file that building `t` under
/// `game_dir` looks at.
pub open spec fn reads_cover(game_dir: Seq<char>, t: data::Table, reads: Seq<SourceRead>) -> bool
    decreases t,
{
    reads_cover_params(game_dir, t.params@, reads)
}

/// `reads` holds a read of every source file that the entries `params` need.
pub open spec fn reads_cover_params(
    game_dir: Seq<char>,
    params: Seq<(String, data::Node)>,
    reads: Seq<SourceRead>,
) -> bool
    decreases params,
{
    if params.len() == 0 {
        true
    } else {
        let head = match params[0].1 {
            data::Node::Table(t) => reads_cover(game_dir, t, reads),
            data::Node::Function(f) => reads_source_file(f) ==> has_read(
                reads,
                source_path(game_dir, f),
            ),
            _ => true,
        };
        head && reads_cover_params(game_dir, params.drop_first(), reads)
    }
}

proof fn lemma_find_read(reads: Seq<SourceRead>, path: Seq<char>)
    ensures
        find_read(reads, path) matches Some(i) ==> 0 <= i < reads.len() && reads[i].path@ == path,
    decreases reads.len(),
{
    if reads.len() > 0 && reads[0].path@ != path {
        lemma_find_read(reads.drop_first(), path);
    }
}

impl SourceReads {
    /// The first read of `path`.
    pub fn get(&self, path: &str) -> (r: Option<&Result<String, ReadError>>)
        ensures
            match find_read(self.reads@, path@) {
                Some(i) => r == Some(&self.reads@[i].result),
                None => r is None,
            },
    {
        let mut i: usize = 0;
        assert(self.reads@.skip(0) =~= self.reads@);
        while i < self.reads.len()
            invariant
                i <= self.reads@.len(),
                find_read(self.reads@, path@) == match find_read(self.reads@.skip(i as int), path@) {
                    Some(k) => Some(k + i),
                    None => None,
                },
            decreases self.reads@.len() - i,
        {
            assert(self.reads@.skip(i as int).drop_first() =~= self.reads@.skip(i + 1));
            if self.reads[i].path == path.to_string() {
                return Some(&self.reads[i].result);
            }
            i = i + 1;
        }
        None
    }
}

impl ReadError {
    /// The message shown for this error.
    pub fn message(&self) -> (r: String)
        ensures
            r@ == read_error_message(*self),
    {
        match self {
            ReadError::NotFound => text::owned("source file not found"),
            ReadError::PermissionDenied => text::owned("permission denied reading"),
            ReadError::InvalidData(m) => m.clone(),
            ReadError::UnexpectedEof => text::owned("unexpected eof"),
            ReadError::Other(m) => text::concat("failed to read ", m.as_str()),
        }
    }
}

/// The definition line to show for a function named `name` that starts at
/// line `first` of the file at `path`, from the outcome of reading that file.
pub fn def_line_from_read(name: &str, first: isize, path: &str, outcome: &Result<String, ReadError>) -> (r:
    String)
    ensures
        r@ == def_from_read(name@, first as int, path@, *outcome),
{
    let msg = match outcome {
        Ok(content) => {
            let ls = text::lines_of(content.as_str());
            if first >= 1 && ((first - 1) as usize) < ls.len() {
                return ls[(first - 1) as usize].clone();
            }
            let mut m = text::owned("could not find function definition line ");
            text::push_str(&mut m, text::isize_decimal(first).as_str());
            text::push_str(&mut m, " in ");
            text::push_str(&mut m, path);
            m
        },
        Err(e) => e.message(),
    };
    let mut r = text::owned("function ");
    text::push_str(&mut r, name);
    text::push_str(&mut r, "(...) -- (err reading file: ");
    text::push_str(&mut r, msg.as_str());
    text::push_str(&mut r, ")");
    r
}

impl Function {
    /// The function of the tree built from the dump's function `func` under
    /// the table named `parent`. Its definition line is read from the
    /// function's source file under `game_dir`, as `reads` holds it.
    pub fn from_data_function(game_dir: &str, parent: &str, func: data::Function, reads: &SourceReads) -> (r:
        Self)
        requires
            reads_source_file(func) ==> has_read(reads.reads@, source_path(game_dir@, func)),
        ensures
            r@ == function_from_data(game_dir@, parent@, func, reads.reads@),
    {
        proof {
            reveal_strlit("@/");
            reveal_strlit("@");
        }
        let source = text::replace_str(func.source.as_str(), "@/", "");
        let source = text::replace_str(source.as_str(), "@", "");
        let func_def = if text::contains_str(func.source.as_str(), "[C]") || func.linedefined < 0 {
            let mut d = text::owned("function ");
            text::push_str(&mut d, func.docs_name.as_str());
            text::push_str(&mut d, "(...)");
            d
        } else {
            let path = text::concat(game_dir, source.as_str());
            proof {
                lemma_find_read(reads.reads@, path@);
            }
            match reads.get(path.as_str()) {
                Some(outcome) => def_line_from_read(
                    func.docs_name.as_str(),
                    func.linedefined,
                    path.as_str(),
                    outcome,
                ),
                None => {
                    proof {
                        assert(false);
                    }
                    text::owned("")
                },
            }
        };
        let mut full_name = text::owned(parent);
        text::push_str(&mut full_name, ".");
        text::push_str(&mut full_name, func.docs_name.as_str());
        let r = Function {
            full_name,
            name: func.docs_name,
            source,
            func_def,
            func_def_line: func.lastlinedefined,
            func_def_start: func.linedefined,
            callers: Vec::new(),
        };
        assert(r@.callers =~= seq![]);
        r
    }
}


impl Table {
    /// The table of the tree built from the dump's table `node` under the
    /// table named `parent`, with every nested table and function; the
    /// definition lines of the functions come from `reads`.
    pub fn from_data_table(game_dir: &str, parent: &str, node: data::Table, reads: &SourceReads) -> (r:
        Self)
        requires
            reads_cover(game_dir@, node, reads.reads@),
        ensures
            r@ == table_from_data(game_dir@, parent@, node, reads.reads@),
        decreases node,
    {
        let ghost orig = node;
        let mut full_name = text::owned(parent);
        text::push_str(&mut full_name, ".");
        text::push_str(&mut full_name, node.docs_name.as_str());
        let mut children: Vec<Table> = Vec::new();
        let mut functions: Vec<Function> = Vec::new();
        let data::Table { docs_name, params } = node;
        let mut params = params;
        let ghost all = params@;
        let ghost g = game_dir@;
        let ghost fl = full_name@;
        let ghost rs = reads.reads@;
        let ghost mut k: int = 0;
        assert(all.skip(0) =~= all);
        assert(table_views(children@) + children_from_params(g, fl, all, rs) =~= children_from_params(g, fl, all, rs));
        assert(function_views(functions@) + functions_from_params(g, fl, all, rs) =~= functions_from_params(g, fl, all, rs));
        while params.len() > 0
            invariant
                0 <= k <= all.len(),
                params@ == all.skip(k),
                all == orig.params@,
                orig == node,
                g == game_dir@,
                fl == full_name@,
                rs == reads.reads@,
                reads_cover_params(g, params@, rs),
                table_views(children@) + children_from_params(g, fl, params@, rs)
                    == children_from_params(g, fl, all, rs),
                function_views(functions@) + functions_from_params(g, fl, params@, rs)
                    == functions_from_params(g, fl, all, rs),
            decreases params@.len(),
        {
            let ghost rest = params@;
            let (_name, child) = params.remove(0);
            assert(params@ =~= rest.drop_first());
            assert(rest.drop_first() =~= all.skip(k + 1));
            assert(rest[0] == all[k]);
            let ghost before_c = table_views(children@);
            let ghost before_f = function_views(functions@);
            match child {
                data::Node::Table(t) => {
                    assert(orig.params@[k].1 == data::Node::Table(t));
                    assert(decreases_to!(orig => orig.params));
                    assert(decreases_to!(orig.params => orig.params@));
                    assert(decreases_to!(orig.params@ => orig.params@[k]));
                    assert(decreases_to!(orig.params@[k] => orig.params@[k].1));
                    assert(decreases_to!(orig => t));
                    let c = Self::from_data_table(game_dir, full_name.as_str(), t, reads);
                    children.push(c);
                    assert(table_views(children@) =~= before_c.push(c@));
                    assert(table_views(children@) + children_from_params(g, fl, params@, rs)
                        =~= before_c + (seq![c@] + children_from_params(g, fl, params@, rs)));
                    assert(function_views(functions@) + functions_from_params(g, fl, params@, rs)
                        =~= before_f + (Seq::<FunctionView>::empty() + functions_from_params(g, fl, params@, rs)));
                },
                data::Node::Function(f) => {
                    let c = Function::from_data_function(game_dir, full_name.as_str(), f, reads);
                    functions.push(c);
                    assert(function_views(functions@) =~= before_f.push(c@));
                    assert(function_views(functions@) + functions_from_params(g, fl, params@, rs)
                        =~= before_f + (seq![c@] + functions_from_params(g, fl, params@, rs)));
                    assert(table_views(children@) + children_from_params(g, fl, params@, rs)
                        =~= before_c + (Seq::<TableView>::empty() + children_from_params(g, fl, params@, rs)));
                },
                _ => {
                    assert(table_views(children@) + children_from_params(g, fl, params@, rs)
                        =~= before_c + (Seq::<TableView>::empty() + children_from_params(g, fl, params@, rs)));
                    assert(function_views(functions@) + functions_from_params(g, fl, params@, rs)
                        =~= before_f + (Seq::<FunctionView>::empty() + functions_from_params(g, fl, params@, rs)));
                },
            }
            proof {
                k = k + 1;
            }
        }
        assert(table_views(children@) =~= table_views(children@) + children_from_params(g, fl, params@, rs));
        assert(function_views(functions@) =~= function_views(functions@) + functions_from_params(g, fl, params@, rs));
        let r = Table { full_name, name: docs_name, children, functions };
        assert(r@.children =~= table_views(children@));
        r
    }
}


// ---------------------------------------------------------------------------
// Sorting by name
// ---------------------------------------------------------------------------

/// The key that sorts by name: the name in ASCII lower case.
pub open spec fn name_key(name: Seq<char>) -> Seq<char> {
    text::to_ascii_lowercase(name)
}

/// `p` is a permutation of the indices `0..n`.
pub open spec fn is_permutation(p: Seq<int>, n: int) -> bool {
    &&& p.len() == n
    &&& forall|i: int| 0 <= i < n ==> 0 <= #[trigger] p[i] < n
    &&& forall|i: int, j: int| 0 <= i < j < n ==> p[i] != p[j]
}

/// `new_keys` are `old_keys` stably sorted, with `new_keys[i] ==
/// old_keys[p[i]]`: in the order of `lex_le`, with equal keys in their old
/// order.
pub open spec fn is_stable_sort(old_keys: Seq<Seq<char>>, new_keys: Seq<Seq<char>>, p: Seq<int>) -> bool {
    &&& new_keys.len() == old_keys.len()
    &&& is_permutation(p, old_keys.len() as int)
    &&& forall|i: int| 0 <= i < p.len() ==> new_keys[i] == old_keys[#[trigger] p[i]]
    &&& forall|i: int, j: int|
        0 <= i < j < p.len() ==> text::lex_le(#[trigger] new_keys[i], #[trigger] new_keys[j])
    &&& forall|i: int, j: int|
        0 <= i < j < p.len() && #[trigger] new_keys[i] == #[trigger] new_keys[j] ==> p[i] < p[j]
}

/// The sort keys of a list of tables.
pub open spec fn table_keys(v: Seq<TableView>) -> Seq<Seq<char>> {
    Seq::new(v.len(), |i: int| name_key(v[i].name))
}

/// The sort keys of a list of functions.
pub open spec fn function_keys(v: Seq<FunctionView>) -> Seq<Seq<char>> {
    Seq::new(v.len(), |i: int| name_key(v[i].name))
}

/// `n` holds the functions of `o`, stably sorted by name.
pub open spec fn functions_sorted_from(o: Seq<FunctionView>, n: Seq<FunctionView>) -> bool {
    exists|p: Seq<int>|
        #[trigger] is_stable_sort(function_keys(o), function_keys(n), p) && forall|i: int|
            0 <= i < n.len() ==> n[i] == o[p[i]]
}

/// `n` is `o` with its functions and nested tables sorted by name, at every
/// level.
pub open spec fn sorted_from(o: TableView, n: TableView) -> bool
    decreases o,
{
    &&& n.full_name == o.full_name
    &&& n.name == o.name
    &&& functions_sorted_from(o.functions, n.functions)
    &&& exists|p: Seq<int>|
        #[trigger] is_stable_sort(table_keys(o.children), table_keys(n.children), p) && forall|i: int|
            #![trigger n.children[i]]
            0 <= i < n.children.len() ==> 0 <= p[i] < o.children.len() && sorted_from(
                o.children[p[i]],
                n.children[i],
            )
}


/// Something with a name to be sorted by.
pub trait Named {
    spec fn name_spec(&self) -> Seq<char>;

    fn name_str(&self) -> (r: &str)
        ensures
            r@ == self.name_spec(),
    ;
}

impl Named for Table {
    open spec fn name_spec(&self) -> Seq<char> {
        self.name@
    }

    fn name_str(&self) -> (r: &str) {
        self.name.as_str()
    }
}

impl Named for Function {
    open spec fn name_spec(&self) -> Seq<char> {
        self.name@
    }

    fn name_str(&self) -> (r: &str) {
        self.name.as_str()
    }
}

/// The sort keys of a list of named items.
pub open spec fn keys_of<T: Named>(v: Seq<T>) -> Seq<Seq<char>> {
    Seq::new(v.len(), |i: int| name_key(v[i].name_spec()))
}

/// Sorted keys `ks` with the permutation `p` of the first `k` items, after
/// `kx` (the key of item `k`) is inserted at `pos`: still stably sorted.
proof fn lemma_insert_sorted(
    old_keys: Seq<Seq<char>>,
    ks: Seq<Seq<char>>,
    p: Seq<int>,
    k: int,
    kx: Seq<char>,
    pos: int,
)
    requires
        0 <= k < old_keys.len(),
        old_keys[k] == kx,
        is_stable_sort(old_keys.take(k), ks, p),
        0 <= pos <= ks.len(),
        forall|i: int| 0 <= i < pos ==> text::lex_le(ks[i], kx),
        pos < ks.len() ==> !text::lex_le(ks[pos], kx),
    ensures
        is_stable_sort(old_keys.take(k + 1), ks.insert(pos, kx), p.insert(pos, k)),
{
    let nk = ks.insert(pos, kx);
    let np = p.insert(pos, k);
    let ok = old_keys.take(k + 1);
    assert forall|j: int| pos < j < nk.len() implies text::lex_le(kx, #[trigger] nk[j]) && kx != nk[j] by {
        text::lemma_lex_le_total(ks[pos], kx);
        if j > pos + 1 {
            assert(text::lex_le(ks[pos], ks[j - 1]));
            text::lemma_lex_le_transitive(kx, ks[pos], ks[j - 1]);
        }
        if kx == nk[j] {
            if j > pos + 1 {
                assert(text::lex_le(ks[pos], ks[j - 1]));
            } else {
                text::lemma_lex_le_reflexive(kx);
            }
        }
    }
    assert forall|i: int| 0 <= i < np.len() implies 0 <= #[trigger] np[i] < k + 1 by {
        if i < pos {
            assert(np[i] == p[i]);
        } else if i > pos {
            assert(np[i] == p[i - 1]);
        }
    }
    assert forall|i: int, j: int| 0 <= i < j < np.len() implies np[i] != np[j] by {
        if i != pos && j != pos {
            let a = if i < pos { i } else { i - 1 };
            let b = if j < pos { j } else { j - 1 };
            assert(np[i] == p[a]);
            assert(np[j] == p[b]);
            assert(a < b);
        } else if i == pos {
            assert(np[j] == p[j - 1]);
            assert(0 <= p[j - 1] < k);
        } else {
            assert(np[i] == p[i]);
            assert(0 <= p[i] < k);
        }
    }
    assert forall|i: int| 0 <= i < np.len() implies nk[i] == ok[#[trigger] np[i]] by {
        if i < pos {
            assert(np[i] == p[i]);
            assert(nk[i] == ks[i]);
            assert(ks[i] == old_keys.take(k)[p[i]]);
        } else if i > pos {
            assert(np[i] == p[i - 1]);
            assert(nk[i] == ks[i - 1]);
            assert(ks[i - 1] == old_keys.take(k)[p[i - 1]]);
        }
    }
    assert forall|i: int, j: int| 0 <= i < j < np.len() implies text::lex_le(
        #[trigger] nk[i],
        #[trigger] nk[j],
    ) by {
        if i < pos && j < pos {
            assert(nk[i] == ks[i] && nk[j] == ks[j]);
        } else if i < pos && j == pos {
        } else if i < pos && j > pos {
            assert(nk[i] == ks[i] && nk[j] == ks[j - 1]);
            assert(text::lex_le(kx, nk[j]));
            text::lemma_lex_le_transitive(ks[i], kx, nk[j]);
        } else if i == pos {
            assert(text::lex_le(kx, nk[j]));
        } else {
            assert(nk[i] == ks[i - 1] && nk[j] == ks[j - 1]);
        }
    }
    assert forall|i: int, j: int|
        0 <= i < j < np.len() && #[trigger] nk[i] == #[trigger] nk[j] implies np[i] < np[j] by {
        if i < pos && j < pos {
            assert(nk[i] == ks[i] && nk[j] == ks[j]);
            assert(np[i] == p[i] && np[j] == p[j]);
        } else if i < pos && j == pos {
            assert(np[i] == p[i]);
        } else if i < pos && j > pos {
            assert(nk[j] == ks[j - 1]);
            assert(nk[i] == ks[i]);
            assert(text::lex_le(ks[i], kx));
            assert(text::lex_le(kx, nk[j]) && kx != nk[j]);
            text::lemma_lex_le_antisymmetric(kx, nk[j]);
        } else if i == pos {
            assert(kx != nk[j]);
        } else {
            assert(nk[i] == ks[i - 1] && nk[j] == ks[j - 1]);
            assert(np[i] == p[i - 1] && np[j] == p[j - 1]);
        }
    }
}

/// Sorts `v` stably by the ASCII lower case of the names, as
/// `sort_by(|a, b| a.name.to_ascii_lowercase().cmp(&b.name.to_ascii_lowercase()))`
/// does; returns the permutation that it applied.
fn sort_by_name<T: Named>(v: &mut Vec<T>) -> (p: Ghost<Seq<int>>)
    ensures
        is_stable_sort(keys_of(old(v)@), keys_of(final(v)@), p@),
        forall|i: int| 0 <= i < final(v)@.len() ==> #[trigger] final(v)@[i] == old(v)@[p@[i]],
{
    let ghost orig = old(v)@;
    let mut input: Vec<T> = Vec::new();
    std::mem::swap(v, &mut input);
    let mut ks: Vec<Vec<char>> = Vec::new();
    let ghost mut p: Seq<int> = seq![];
    let n = input.len();
    let mut k: usize = 0;
    assert(orig.skip(0) =~= orig);
    assert(is_stable_sort(keys_of(orig).take(0), keys_of(v@), p));
    while k < n
        invariant
            k <= n,
            n == orig.len(),
            input@ == orig.skip(k as int),
            v@.len() == k,
            ks@.len() == k,
            forall|i: int| 0 <= i < k ==> (#[trigger] ks@[i])@ == name_key(v@[i].name_spec()),
            is_stable_sort(keys_of(orig).take(k as int), keys_of(v@), p),
            forall|i: int| 0 <= i < k ==> #[trigger] v@[i] == orig[p[i]],
        decreases n - k,
    {
        let ghost prev_input = input@;
        let x = input.remove(0);
        assert(input@ =~= orig.skip(k + 1));
        assert(x == orig[k as int]);
        let kx = text::ascii_lowercase_chars(x.name_str());
        let mut pos: usize = 0;
        while pos < ks.len() && text::lex_le_chars(ks[pos].as_slice(), kx.as_slice())
            invariant
                pos <= ks@.len(),
                forall|i: int| 0 <= i < pos ==> text::lex_le((#[trigger] ks@[i])@, kx@),
            decreases ks@.len() - pos,
        {
            pos = pos + 1;
        }
        let ghost old_v = v@;
        let ghost old_keys = keys_of(v@);
        assert(keys_of(orig)[k as int] == kx@);
        assert forall|i: int| 0 <= i < pos implies text::lex_le(old_keys[i], kx@) by {
            assert(ks@[i]@ == old_keys[i]);
        }
        if pos < ks.len() {
            assert(ks@[pos as int]@ == old_keys[pos as int]);
        }
        proof {
            lemma_insert_sorted(keys_of(orig), old_keys, p, k as int, kx@, pos as int);
        }
        v.insert(pos, x);
        ks.insert(pos, kx);
        proof {
            assert(keys_of(v@) =~= old_keys.insert(pos as int, kx@));
            p = p.insert(pos as int, k as int);
            assert forall|i: int| 0 <= i < k + 1 implies #[trigger] v@[i] == orig[p[i]] by {
                if i < pos {
                    assert(v@[i] == old_v[i]);
                } else if i > pos {
                    assert(v@[i] == old_v[i - 1]);
                }
            }
            assert forall|i: int| 0 <= i < k + 1 implies (#[trigger] ks@[i])@ == name_key(
                v@[i].name_spec(),
            ) by {
                if i < pos {
                    assert(v@[i] == old_v[i]);
                } else if i > pos {
                    assert(v@[i] == old_v[i - 1]);
                }
            }
        }
        k = k + 1;
    }
    assert(keys_of(orig).take(n as int) =~= keys_of(orig));
    Ghost(p)
}


impl Table {
    /// Sorts the nested tables and the functions by name, ignoring ASCII
    /// case and keeping the order of equal names, at every level.
    pub fn sort_alphanumerical(&mut self)
        ensures
            sorted_from(old(self)@, final(self)@),
            names_in_order(final(self)@),
        decreases *old(self),
    {
        let ghost o = old(self)@;
        let ghost oc = old(self).children@;
        let pc = sort_by_name(&mut self.children);
        let pf = sort_by_name(&mut self.functions);
        proof {
            broadcast use lemma_table_view;

            assert forall|i: int| 0 <= i < oc.len() implies keys_of(oc)[i] == table_keys(o.children)[i] by {
                assert(o.children[i] == oc[i]@);
                assert(oc[i]@.name == oc[i].name@);
            }
            assert(keys_of(oc) =~= table_keys(o.children));
            assert(keys_of(old(self).functions@) =~= function_keys(o.functions));
            assert(keys_of(self.functions@) =~= function_keys(function_views(self.functions@)));
            assert forall|i: int| 0 <= i < self.functions@.len() implies function_views(
                self.functions@,
            )[i] == o.functions[pf@[i]] by {
                assert(self.functions@[i] == old(self).functions@[pf@[i]]);
            }
            assert(is_stable_sort(function_keys(o.functions), function_keys(function_views(self.functions@)), pf@));
        }
        let mut mid: Vec<Table> = Vec::new();
        std::mem::swap(&mut self.children, &mut mid);
        let ghost m = mid@;
        let n = mid.len();
        let mut out: Vec<Table> = Vec::new();
        let mut i: usize = 0;
        assert(m.skip(0) =~= m);
        while i < n
            invariant
                i <= n,
                n == m.len(),
                m.len() == oc.len(),
                mid@ == m.skip(i as int),
                oc == old(self).children@,
                out@.len() == i,
                forall|j: int| 0 <= j < m.len() ==> #[trigger] m[j] == oc[pc@[j]],
                is_permutation(pc@, oc.len() as int),
                forall|j: int| 0 <= j < i ==> sorted_from(m[j]@, (#[trigger] out@[j])@),
            decreases n - i,
        {
            let mut c = mid.remove(0);
            assert(mid@ =~= m.skip(i + 1));
            assert(c == m[i as int]);
            assert(c == oc[pc@[i as int]]);
            assert(decreases_to!(*old(self) => c)) by {
                assert(old(self).children@[pc@[i as int]] == c);
            }
            c.sort_alphanumerical();
            out.push(c);
            i = i + 1;
        }
        self.children = out;
        proof {
            broadcast use lemma_table_view;

            let nv = self@;
            assert(nv.functions == function_views(self.functions@));
            assert(functions_sorted_from(o.functions, nv.functions));
            assert forall|j: int| 0 <= j < nv.children.len() implies nv.children[j].name == m[j]@.name by {
                assert(nv.children[j] == out@[j]@);
            }
            assert(table_keys(nv.children) =~= keys_of(m));
            assert forall|j: int| 0 <= j < nv.children.len() implies 0 <= pc@[j] < o.children.len()
                && sorted_from(o.children[pc@[j]], #[trigger] nv.children[j]) by {
                assert(nv.children[j] == out@[j]@);
                assert(o.children[pc@[j]] == oc[pc@[j]]@);
            }
            assert(is_stable_sort(table_keys(o.children), table_keys(nv.children), pc@));
            assert(sorted_from(o, nv));
            lemma_sorted_names_in_order(o, nv);
        }
    }
}


// ---------------------------------------------------------------------------
// Lookups
// ---------------------------------------------------------------------------

/// The first function of `fs` named `name`.
pub open spec fn find_function_named(fs: Seq<FunctionView>, name: Seq<char>) -> Option<int>
    decreases fs.len(),
{
    if fs.len() == 0 {
        None
    } else if fs[0].name == name {
        Some(0)
    } else {
        match find_function_named(fs.drop_first(), name) {
            Some(i) => Some(i + 1),
            None => None,
        }
    }
}

/// The first table of `ts` named `name`.
pub open spec fn find_table_named(ts: Seq<TableView>, name: Seq<char>) -> Option<int>
    decreases ts.len(),
{
    if ts.len() == 0 {
        None
    } else if ts[0].name == name {
        Some(0)
    } else {
        match find_table_named(ts.drop_first(), name) {
            Some(i) => Some(i + 1),
            None => None,
        }
    }
}

/// What `find_function_named` returns: the first function of that name.
pub proof fn lemma_find_function_named(fs: Seq<FunctionView>, name: Seq<char>)
    ensures
        match find_function_named(fs, name) {
            Some(i) => 0 <= i < fs.len() && fs[i].name == name && forall|j: int|
                0 <= j < i ==> fs[j].name != name,
            None => forall|j: int| 0 <= j < fs.len() ==> fs[j].name != name,
        },
    decreases fs.len(),
{
    if fs.len() > 0 && fs[0].name != name {
        lemma_find_function_named(fs.drop_first(), name);
        assert forall|j: int| 1 <= j < fs.len() implies fs[j] == fs.drop_first()[j - 1] by {}
    }
}

/// What `find_table_named` returns: the first table of that name.
pub proof fn lemma_find_table_named(ts: Seq<TableView>, name: Seq<char>)
    ensures
        match find_table_named(ts, name) {
            Some(i) => 0 <= i < ts.len() && ts[i].name == name && forall|j: int|
                0 <= j < i ==> ts[j].name != name,
            None => forall|j: int| 0 <= j < ts.len() ==> ts[j].name != name,
        },
    decreases ts.len(),
{
    if ts.len() > 0 && ts[0].name != name {
        lemma_find_table_named(ts.drop_first(), name);
        assert forall|j: int| 1 <= j < ts.len() implies ts[j] == ts.drop_first()[j - 1] by {}
    }
}

/// The node that `path` leads to from `t`: each step but the last goes to
/// the first nested table of that name; the last step names a function of
/// the table reached, or failing that one of its nested tables.
pub open spec fn lookup(t: TableView, path: Seq<Seq<char>>) -> Option<NodeView>
    decreases path.len(),
{
    if path.len() == 0 {
        None
    } else if path.len() == 1 {
        match find_function_named(t.functions, path[0]) {
            Some(i) => Some(NodeView::Function(t.functions[i])),
            None => match find_table_named(t.children, path[0]) {
                Some(i) => Some(NodeView::Table(t.children[i])),
                None => None,
            },
        }
    } else {
        match find_table_named(t.children, path[0]) {
            Some(i) => lookup(t.children[i], path.drop_first()),
            None => None,
        }
    }
}

proof fn lemma_lookup_step(t: TableView, p: Seq<Seq<char>>, i: int)
    requires
        p.len() >= 2,
        find_table_named(t.children, p[0]) == Some(i),
    ensures
        lookup(t, p) == lookup(t.children[i], p.drop_first()),
{
}

/// The model of an optional node.
pub open spec fn node_option_view(r: Option<Node>) -> Option<NodeView> {
    match r {
        Some(n) => Some(n@),
        None => None,
    }
}

impl Table {
    /// The index of the first function named `name`.
    fn position_of_function(&self, name: &String) -> (r: Option<usize>)
        ensures
            r matches Some(i) ==> find_function_named(self@.functions, name@) == Some(i as int) && i
                < self.functions@.len(),
            r is None ==> find_function_named(self@.functions, name@) is None,
    {
        let ghost fs = self@.functions;
        let mut i: usize = 0;
        assert(fs.skip(0) =~= fs);
        while i < self.functions.len()
            invariant
                i <= fs.len(),
                fs == function_views(self.functions@),
                find_function_named(fs, name@) == match find_function_named(fs.skip(i as int), name@) {
                    Some(k) => Some(k + i),
                    None => None,
                },
            decreases fs.len() - i,
        {
            assert(fs.skip(i as int).drop_first() =~= fs.skip(i + 1));
            assert(fs.skip(i as int)[0] == self.functions@[i as int]@);
            if self.functions[i].name == *name {
                return Some(i);
            }
            i = i + 1;
        }
        None
    }

    /// The index of the first nested table named `name`.
    fn position_of_child(&self, name: &String) -> (r: Option<usize>)
        ensures
            r matches Some(i) ==> find_table_named(self@.children, name@) == Some(i as int) && i
                < self.children@.len(),
            r is None ==> find_table_named(self@.children, name@) is None,
    {
        proof {
            lemma_table_view(*self);
        }
        let ghost ts = self@.children;
        let mut i: usize = 0;
        assert(ts.skip(0) =~= ts);
        while i < self.children.len()
            invariant
                i <= ts.len(),
                ts == self@.children,
                ts.len() == self.children@.len(),
                forall|j: int| 0 <= j < ts.len() ==> ts[j] == #[trigger] self.children@[j]@,
                find_table_named(ts, name@) == match find_table_named(ts.skip(i as int), name@) {
                    Some(k) => Some(k + i),
                    None => None,
                },
            decreases ts.len() - i,
        {
            assert(ts.skip(i as int).drop_first() =~= ts.skip(i + 1));
            assert(ts.skip(i as int)[0] == self.children@[i as int]@);
            proof {
                lemma_table_view(self.children@[i as int]);
            }
            if self.children[i].name == *name {
                assert(ts.skip(i as int)[0].name == name@);
                assert(find_table_named(ts.skip(i as int), name@) == Some(0int));
                return Some(i);
            }
            i = i + 1;
        }
        None
    }

    /// The node that `path` leads to from this table (see `lookup`), copied.
    pub fn get_data(&self, path: VecDeque<String>) -> (r: Option<Node>)
        ensures
            node_option_view(r) == lookup(self@, text::views(path@)),
        decreases path@.len(),
    {
        proof {
            lemma_table_view(*self);
        }
        broadcast use vstd::std_specs::vecdeque::axiom_spec_len;

        let ghost p = text::views(path@);
        proof {
            lemma_find_function_named(self@.functions, p[0]);
            lemma_find_table_named(self@.children, p[0]);
        }
        let mut path = path;
        let first = match path.pop_front() {
            Some(f) => f,
            None => {
                return None;
            },
        };
        assert(p.drop_first() =~= text::views(path@));
        assert(p[0] == first@);
        if path.len() == 0 {
            match self.position_of_function(&first) {
                Some(i) => Some(Node::Function(self.functions[i].clone())),
                None => match self.position_of_child(&first) {
                    Some(i) => {
                        assert(self@.children[i as int] == self.children@[i as int]@);
                        Some(Node::Table(self.children[i].clone()))
                    },
                    None => None,
                },
            }
        } else {
            match self.position_of_child(&first) {
                Some(i) => {
                    assert(self@.children[i as int] == self.children@[i as int]@);
                    assert(p.len() >= 2);
                    assert(find_table_named(self@.children, p[0]) == Some(i as int));
                    proof {
                        lemma_lookup_step(self@, p, i as int);
                    }
                    self.children[i].get_data(path)
                },
                None => None,
            }
        }
    }
}


// ---------------------------------------------------------------------------
// Names of everything in the tree
// ---------------------------------------------------------------------------

/// The (full name, name) pairs of a list of functions.
pub open spec fn own_function_names(fs: Seq<FunctionView>) -> Seq<(Seq<char>, Seq<char>)> {
    Seq::new(fs.len(), |i: int| (fs[i].full_name, fs[i].name))
}

/// The (full name, name) pairs of every function of `t`, its own first, then
/// those of each nested table in turn.
pub open spec fn function_names(t: TableView) -> Seq<(Seq<char>, Seq<char>)>
    decreases t,
{
    own_function_names(t.functions) + function_names_in(t.children)
}

/// The (full name, name) pairs of every function in the tables `cs`.
pub open spec fn function_names_in(cs: Seq<TableView>) -> Seq<(Seq<char>, Seq<char>)>
    decreases cs,
{
    if cs.len() == 0 {
        seq![]
    } else {
        function_names_in(cs.drop_last()) + function_names(cs.last())
    }
}

/// The (full name, name) pairs of every table nested in `t`, each followed
/// by those nested in it.
pub open spec fn child_names(t: TableView) -> Seq<(Seq<char>, Seq<char>)>
    decreases t,
{
    child_names_in(t.children)
}

/// The (full name, name) pairs of the tables `cs` and of every table nested
/// in them.
pub open spec fn child_names_in(cs: Seq<TableView>) -> Seq<(Seq<char>, Seq<char>)>
    decreases cs,
{
    if cs.len() == 0 {
        seq![]
    } else {
        child_names_in(cs.drop_last()) + seq![(cs.last().full_name, cs.last().name)] + child_names(
            cs.last(),
        )
    }
}

/// The model of a list of (full name, name) pairs.
pub open spec fn pair_views(v: Seq<(String, String)>) -> Seq<(Seq<char>, Seq<char>)> {
    Seq::new(v.len(), |i: int| (v[i].0@, v[i].1@))
}

impl Table {
    fn push_function_names(&self, out: &mut Vec<(String, String)>)
        ensures
            pair_views(final(out)@) == pair_views(old(out)@) + function_names(self@),
        decreases self,
    {
        proof {
            lemma_table_view(*self);
        }
        let ghost start = pair_views(out@);
        let mut k: usize = 0;
        while k < self.functions.len()
            invariant
                k <= self.functions@.len(),
                pair_views(out@) == start + own_function_names(self@.functions).take(k as int),
                self@.functions == function_views(self.functions@),
            decreases self.functions@.len() - k,
        {
            let ghost before = out@;
            out.push((self.functions[k].full_name.clone(), self.functions[k].name.clone()));
            assert(self@.functions[k as int] == self.functions@[k as int]@);
            assert(pair_views(out@) =~= pair_views(before).push(
                (self@.functions[k as int].full_name, self@.functions[k as int].name),
            ));
            k = k + 1;
            assert(pair_views(out@) =~= start + own_function_names(self@.functions).take(k as int));
        }
        assert(own_function_names(self@.functions).take(k as int) =~= own_function_names(self@.functions));
        let ghost mid = pair_views(out@);
        let ghost cs = self@.children;
        let mut i: usize = 0;
        assert(cs.take(0) =~= Seq::<TableView>::empty());
        while i < self.children.len()
            invariant
                i <= self.children@.len(),
                cs == self@.children,
                cs.len() == self.children@.len(),
                forall|j: int| 0 <= j < cs.len() ==> cs[j] == #[trigger] self.children@[j]@,
                pair_views(out@) == mid + function_names_in(cs.take(i as int)),
            decreases self.children@.len() - i,
        {
            let ghost before = pair_views(out@);
            self.children[i].push_function_names(out);
            assert(cs.take(i + 1).drop_last() =~= cs.take(i as int));
            assert(cs.take(i + 1).last() == self.children@[i as int]@);
            i = i + 1;
            assert(pair_views(out@) =~= mid + function_names_in(cs.take(i as int)));
        }
        assert(cs.take(i as int) =~= cs);
        assert(pair_views(out@) =~= start + function_names(self@));
    }

    /// The (full name, name) pairs of every function in the table: its own
    /// first, then those of each nested table in turn.
    pub fn get_all_function_names(&self) -> (r: Vec<(String, String)>)
        ensures
            pair_views(r@) == function_names(self@),
    {
        let mut out: Vec<(String, String)> = Vec::new();
        self.push_function_names(&mut out);
        assert(pair_views(out@) =~= function_names(self@));
        out
    }

    fn push_child_names(&self, out: &mut Vec<(String, String)>)
        ensures
            pair_views(final(out)@) == pair_views(old(out)@) + child_names(self@),
        decreases self,
    {
        proof {
            lemma_table_view(*self);
        }
        let ghost start = pair_views(out@);
        let ghost cs = self@.children;
        let mut i: usize = 0;
        assert(cs.take(0) =~= Seq::<TableView>::empty());
        while i < self.children.len()
            invariant
                i <= self.children@.len(),
                cs == self@.children,
                cs.len() == self.children@.len(),
                forall|j: int| 0 <= j < cs.len() ==> cs[j] == #[trigger] self.children@[j]@,
                pair_views(out@) == start + child_names_in(cs.take(i as int)),
            decreases self.children@.len() - i,
        {
            proof {
                lemma_table_view(self.children@[i as int]);
            }
            let ghost before = out@;
            out.push((self.children[i].full_name.clone(), self.children[i].name.clone()));
            assert(pair_views(out@) =~= pair_views(before) + seq![
                (self.children@[i as int]@.full_name, self.children@[i as int]@.name),
            ]);
            self.children[i].push_child_names(out);
            assert(cs.take(i + 1).drop_last() =~= cs.take(i as int));
            assert(cs.take(i + 1).last() == self.children@[i as int]@);
            i = i + 1;
            assert(pair_views(out@) =~= start + child_names_in(cs.take(i as int)));
        }
        assert(cs.take(i as int) =~= cs);
    }

    /// The (full name, name) pairs of every table nested in this one, each
    /// followed by those nested in it.
    pub fn get_all_children_names(&self) -> (r: Vec<(String, String)>)
        ensures
            pair_views(r@) == child_names(self@),
    {
        let mut out: Vec<(String, String)> = Vec::new();
        self.push_child_names(&mut out);
        assert(pair_views(out@) =~= child_names(self@));
        out
    }
}


// ---------------------------------------------------------------------------
// Recording call sites
// ---------------------------------------------------------------------------

/// The first function of `fs` with the full name `full`.
pub open spec fn find_function_full(fs: Seq<FunctionView>, full: Seq<char>) -> Option<int>
    decreases fs.len(),
{
    if fs.len() == 0 {
        None
    } else if fs[0].full_name == full {
        Some(0)
    } else {
        match find_function_full(fs.drop_first(), full) {
            Some(i) => Some(i + 1),
            None => None,
        }
    }
}

/// `f` with its call sites replaced by `calls`.
pub open spec fn with_callers(f: FunctionView, calls: Seq<(Seq<char>, Seq<int>)>) -> FunctionView {
    FunctionView {
        full_name: f.full_name,
        name: f.name,
        source: f.source,
        func_def: f.func_def,
        func_def_line: f.func_def_line,
        func_def_start: f.func_def_start,
        callers: calls,
    }
}

/// `t` with the call sites of its first function with the full name `full`
/// set to `calls`, searching its own functions first and then each nested
/// table in turn; and whether there is such a function.
pub open spec fn set_calls_spec(t: TableView, full: Seq<char>, calls: Seq<(Seq<char>, Seq<int>)>) -> (
    TableView,
    bool,
)
    decreases t,
{
    match find_function_full(t.functions, full) {
        Some(i) => (
            TableView {
                full_name: t.full_name,
                name: t.name,
                children: t.children,
                functions: t.functions.update(i, with_callers(t.functions[i], calls)),
            },
            true,
        ),
        None => {
            let r = set_calls_in(t.children, full, calls);
            (TableView { full_name: t.full_name, name: t.name, children: r.0, functions: t.functions }, r.1)
        },
    }
}

/// `set_calls_spec` over the tables `cs`: the first of them that has such a
/// function is changed.
pub open spec fn set_calls_in(cs: Seq<TableView>, full: Seq<char>, calls: Seq<(Seq<char>, Seq<int>)>) -> (
    Seq<TableView>,
    bool,
)
    decreases cs,
{
    if cs.len() == 0 {
        (cs, false)
    } else {
        let r = set_calls_in(cs.drop_last(), full, calls);
        if r.1 {
            (r.0.push(cs.last()), true)
        } else {
            let h = set_calls_spec(cs.last(), full, calls);
            (r.0.push(h.0), h.1)
        }
    }
}

/// Where no function has the full name, nothing changes.
pub proof fn lemma_set_calls_unchanged(t: TableView, full: Seq<char>, calls: Seq<(Seq<char>, Seq<int>)>)
    ensures
        !set_calls_spec(t, full, calls).1 ==> set_calls_spec(t, full, calls).0 == t,
    decreases t,
{
    if find_function_full(t.functions, full) is None {
        lemma_set_calls_in_unchanged(t.children, full, calls);
    }
}

/// Where no function of the tables has the full name, nothing changes.
pub proof fn lemma_set_calls_in_unchanged(
    cs: Seq<TableView>,
    full: Seq<char>,
    calls: Seq<(Seq<char>, Seq<int>)>,
)
    ensures
        !set_calls_in(cs, full, calls).1 ==> set_calls_in(cs, full, calls).0 == cs,
    decreases cs,
{
    if cs.len() > 0 {
        lemma_set_calls_in_unchanged(cs.drop_last(), full, calls);
        lemma_set_calls_unchanged(cs.last(), full, calls);
        if !set_calls_in(cs, full, calls).1 {
            assert(cs.drop_last().push(cs.last()) =~= cs);
        }
    }
}

/// What `find_function_full` returns: the first function of that full name.
pub proof fn lemma_find_function_full(fs: Seq<FunctionView>, full: Seq<char>)
    ensures
        match find_function_full(fs, full) {
            Some(i) => 0 <= i < fs.len() && fs[i].full_name == full,
            None => forall|j: int| 0 <= j < fs.len() ==> fs[j].full_name != full,
        },
    decreases fs.len(),
{
    if fs.len() > 0 && fs[0].full_name != full {
        lemma_find_function_full(fs.drop_first(), full);
        assert forall|j: int| 1 <= j < fs.len() implies fs[j] == fs.drop_first()[j - 1] by {}
    }
}

impl Function {
    /// Records the call sites of the function, by file.
    pub fn set_calls(&mut self, calls: Vec<(String, Vec<usize>)>)
        ensures
            final(self)@ == with_callers(old(self)@, callers_view(calls@)),
    {
        self.callers = calls;
    }
}

impl Table {
    /// The index of the first function with the full name `full`.
    fn position_of_full_name(&self, full: &str) -> (r: Option<usize>)
        ensures
            r matches Some(i) ==> find_function_full(self@.functions, full@) == Some(i as int) && i
                < self.functions@.len(),
            r is None ==> find_function_full(self@.functions, full@) is None,
    {
        let ghost fs = self@.functions;
        let full_s = text::owned(full);
        let mut i: usize = 0;
        assert(fs.skip(0) =~= fs);
        while i < self.functions.len()
            invariant
                i <= fs.len(),
                fs == self@.functions,
                fs == function_views(self.functions@),
                full_s@ == full@,
                find_function_full(fs, full@) == match find_function_full(fs.skip(i as int), full@) {
                    Some(k) => Some(k + i),
                    None => None,
                },
            decreases fs.len() - i,
        {
            assert(fs.skip(i as int).drop_first() =~= fs.skip(i + 1));
            assert(fs.skip(i as int)[0] == self.functions@[i as int]@);
            if self.functions[i].full_name == full_s {
                assert(find_function_full(fs.skip(i as int), full@) == Some(0int));
                return Some(i);
            }
            i = i + 1;
        }
        None
    }

    /// Records `calls` as the call sites of the first function with the
    /// full name `full_name` (see `set_calls_spec`); whether there is one.
    pub fn set_calls_by_full_name(&mut self, full_name: &str, calls: &Vec<(String, Vec<usize>)>) -> (found:
        bool)
        ensures
            (final(self)@, found) == set_calls_spec(old(self)@, full_name@, callers_view(calls@)),
        decreases *old(self),
    {
        proof {
            lemma_table_view(*self);
            lemma_find_function_full(self@.functions, full_name@);
        }
        let ghost o = self@;
        let ghost cv = callers_view(calls@);
        match self.position_of_full_name(full_name) {
            Some(i) => {
                let mut f = self.functions.remove(i);
                f.set_calls(clone_callers(calls));
                self.functions.insert(i, f);
                proof {
                    lemma_table_view(*self);
                    assert(self@.functions =~= o.functions.update(i as int, with_callers(o.functions[i as int], cv)));
                }
                true
            },
            None => {
                let ghost oc = self.children@;
                let mut mid: Vec<Table> = Vec::new();
                std::mem::swap(&mut self.children, &mut mid);
                let n = mid.len();
                let mut out: Vec<Table> = Vec::new();
                let mut found = false;
                let mut i: usize = 0;
                assert(oc.skip(0) =~= oc);
                assert(o.children.take(0) =~= Seq::<TableView>::empty());
                assert(table_views(out@) =~= Seq::<TableView>::empty());
                while i < n
                    invariant
                        i <= n,
                        n == oc.len(),
                        oc == old(self).children@,
                        o == old(self)@,
                        o.children.len() == oc.len(),
                        forall|j: int| 0 <= j < oc.len() ==> o.children[j] == #[trigger] oc[j]@,
                        cv == callers_view(calls@),
                        mid@ == oc.skip(i as int),
                        (table_views(out@), found) == set_calls_in(o.children.take(i as int), full_name@, cv),
                    decreases n - i,
                {
                    let mut c = mid.remove(0);
                    assert(mid@ =~= oc.skip(i + 1));
                    assert(c == oc[i as int]);
                    let ghost tk = o.children.take(i as int);
                    let ghost before = table_views(out@);
                    assert(o.children.take(i + 1).drop_last() =~= tk);
                    assert(o.children.take(i + 1).last() == c@);
                    if !found {
                        assert(decreases_to!(*old(self) => c)) by {
                            assert(old(self).children@[i as int] == c);
                        }
                        proof {
                            lemma_set_calls_in_unchanged(tk, full_name@, cv);
                        }
                        let f = c.set_calls_by_full_name(full_name, calls);
                        found = f;
                    }
                    out.push(c);
                    assert(table_views(out@) =~= before.push(c@));
                    i = i + 1;
                }
                assert(o.children.take(n as int) =~= o.children);
                self.children = out;
                proof {
                    lemma_table_view(*self);
                    assert(self@.children =~= table_views(out@));
                }
                found
            },
        }
    }
}


/// Some function of `t` has the full name `full`.
pub open spec fn names_contain(names: Seq<(Seq<char>, Seq<char>)>, full: Seq<char>) -> bool {
    exists|k: int| 0 <= k < names.len() && #[trigger] names[k].0 == full
}

/// Recording call sites keeps the names of every function.
pub proof fn lemma_set_calls_keeps_names(t: TableView, full: Seq<char>, calls: Seq<(Seq<char>, Seq<int>)>)
    ensures
        function_names(set_calls_spec(t, full, calls).0) == function_names(t),
    decreases t,
{
    lemma_find_function_full(t.functions, full);
    match find_function_full(t.functions, full) {
        Some(i) => {
            let n = set_calls_spec(t, full, calls).0;
            assert(own_function_names(n.functions) =~= own_function_names(t.functions));
        },
        None => {
            lemma_set_calls_in_keeps_names(t.children, full, calls);
        },
    }
}

/// Recording call sites in a list of tables keeps the names of every
/// function.
pub proof fn lemma_set_calls_in_keeps_names(
    cs: Seq<TableView>,
    full: Seq<char>,
    calls: Seq<(Seq<char>, Seq<int>)>,
)
    ensures
        function_names_in(set_calls_in(cs, full, calls).0) == function_names_in(cs),
    decreases cs,
{
    if cs.len() > 0 {
        lemma_set_calls_in_keeps_names(cs.drop_last(), full, calls);
        lemma_set_calls_keeps_names(cs.last(), full, calls);
        let r = set_calls_in(cs.drop_last(), full, calls);
        let out = set_calls_in(cs, full, calls).0;
        assert(out.drop_last() =~= r.0);
    }
}

/// Recording call sites for a full name that some function has finds it.
pub proof fn lemma_set_calls_finds(t: TableView, full: Seq<char>, calls: Seq<(Seq<char>, Seq<int>)>)
    requires
        names_contain(function_names(t), full),
    ensures
        set_calls_spec(t, full, calls).1,
    decreases t,
{
    lemma_find_function_full(t.functions, full);
    if find_function_full(t.functions, full) is None {
        let own = own_function_names(t.functions);
        let k = choose|k: int| 0 <= k < function_names(t).len() && #[trigger] function_names(t)[k].0 == full;
        if k < own.len() {
            assert(own[k].0 == t.functions[k].full_name);
        } else {
            assert(function_names_in(t.children)[k - own.len()].0 == full);
            lemma_set_calls_in_finds(t.children, full, calls);
        }
    }
}

/// Recording call sites in a list of tables for a full name that some
/// function of them has finds it.
pub proof fn lemma_set_calls_in_finds(cs: Seq<TableView>, full: Seq<char>, calls: Seq<(Seq<char>, Seq<int>)>)
    requires
        names_contain(function_names_in(cs), full),
    ensures
        set_calls_in(cs, full, calls).1,
    decreases cs,
{
    let all = function_names_in(cs);
    let k = choose|k: int| 0 <= k < all.len() && #[trigger] all[k].0 == full;
    if cs.len() > 0 {
        let front = function_names_in(cs.drop_last());
        if k < front.len() {
            assert(front[k].0 == full);
            lemma_set_calls_in_finds(cs.drop_last(), full, calls);
        } else {
            assert(function_names(cs.last())[k - front.len()].0 == full);
            lemma_set_calls_finds(cs.last(), full, calls);
        }
    }
}


// ---------------------------------------------------------------------------
// The source files that building a tree reads
// ---------------------------------------------------------------------------

/// The read that the entry `e` needs, if any, is in `reads`.
pub open spec fn entry_covered(game_dir: Seq<char>, e: (String, data::Node), reads: Seq<SourceRead>) -> bool {
    match e.1 {
        data::Node::Table(t) => reads_cover(game_dir, t, reads),
        data::Node::Function(f) => reads_source_file(f) ==> has_read(reads, source_path(game_dir, f)),
        _ => true,
    }
}

/// `reads_cover_params` holds of each entry.
pub proof fn lemma_reads_cover_params(game_dir: Seq<char>, params: Seq<(String, data::Node)>, reads: Seq<SourceRead>)
    ensures
        reads_cover_params(game_dir, params, reads) <==> forall|i: int|
            0 <= i < params.len() ==> #[trigger] entry_covered(game_dir, params[i], reads),
    decreases params.len(),
{
    if params.len() > 0 {
        lemma_reads_cover_params(game_dir, params.drop_first(), reads);
        assert forall|i: int| 1 <= i < params.len() implies params[i] == params.drop_first()[i - 1] by {}
        if forall|i: int| 0 <= i < params.len() ==> #[trigger] entry_covered(game_dir, params[i], reads) {
            assert(entry_covered(game_dir, params[0], reads));
            assert forall|i: int| 0 <= i < params.drop_first().len() implies #[trigger] entry_covered(
                game_dir,
                params.drop_first()[i],
                reads,
            ) by {
                assert(entry_covered(game_dir, params[i + 1], reads));
            }
        }
    }
}

/// Every path of `paths` has a read in `reads`.
pub open spec fn all_read(paths: Seq<String>, reads: Seq<SourceRead>) -> bool {
    forall|i: int| 0 <= i < paths.len() ==> has_read(reads, #[trigger] paths[i]@)
}

/// Adds the paths of the source files that building `t` reads.
fn push_source_paths(game_dir: &str, t: &data::Table, out: &mut Vec<String>)
    ensures
        old(out)@.len() <= final(out)@.len(),
        forall|i: int| 0 <= i < old(out)@.len() ==> #[trigger] final(out)@[i] == old(out)@[i],
        forall|reads: Seq<SourceRead>|
            #[trigger] all_read(final(out)@, reads) ==> reads_cover(game_dir@, *t, reads),
    decreases t,
{
    let ghost start = out@;
    let mut k: usize = 0;
    while k < t.params.len()
        invariant
            k <= t.params@.len(),
            start.len() <= out@.len(),
            forall|i: int| 0 <= i < start.len() ==> #[trigger] out@[i] == start[i],
            forall|reads: Seq<SourceRead>, i: int|
                #![trigger all_read(out@, reads), t.params@[i]]
                all_read(out@, reads) && 0 <= i < k ==> entry_covered(game_dir@, t.params@[i], reads),
        decreases t.params@.len() - k,
    {
        let ghost before = out@;
        match &t.params[k].1 {
            data::Node::Table(c) => {
                assert(decreases_to!(*t => *c)) by {
                    assert(t.params@[k as int].1 == data::Node::Table(*c));
                }
                push_source_paths(game_dir, c, out);
            },
            data::Node::Function(f) => {
                proof {
                    reveal_strlit("@/");
                    reveal_strlit("@");
                }
                if !(text::contains_str(f.source.as_str(), "[C]") || f.linedefined < 0) {
                    let source = text::replace_str(f.source.as_str(), "@/", "");
                    let source = text::replace_str(source.as_str(), "@", "");
                    out.push(text::concat(game_dir, source.as_str()));
                }
            },
            _ => {},
        }
        assert forall|reads: Seq<SourceRead>, i: int|
            all_read(out@, reads) && 0 <= i < k + 1 implies entry_covered(game_dir@, t.params@[i], reads) by {
            assert forall|m: int| 0 <= m < before.len() implies has_read(reads, #[trigger] before[m]@) by {
                assert(out@[m] == before[m]);
            }
            assert(all_read(before, reads));
            if i == k {
                match t.params@[i].1 {
                    data::Node::Function(f) => {
                        if reads_source_file(f) {
                            assert(out@[out@.len() - 1]@ == source_path(game_dir@, f));
                        }
                    },
                    _ => {},
                }
            }
        }
        k = k + 1;
    }
    assert forall|reads: Seq<SourceRead>| #[trigger] all_read(out@, reads) implies reads_cover(
        game_dir@,
        *t,
        reads,
    ) by {
        lemma_reads_cover_params(game_dir@, t.params@, reads);
        assert forall|i: int| 0 <= i < t.params@.len() implies #[trigger] entry_covered(
            game_dir@,
            t.params@[i],
            reads,
        ) by {}
    }
}

/// The paths of the source files that building the table `node` under
/// `game_dir` reads: reads of all of them cover it (see `reads_cover`).
pub fn source_paths(game_dir: &str, node: &data::Table) -> (r: Vec<String>)
    ensures
        forall|reads: Seq<SourceRead>| #[trigger] all_read(r@, reads) ==> reads_cover(game_dir@, *node, reads),
{
    let mut out: Vec<String> = Vec::new();
    push_source_paths(game_dir, node, &mut out);
    out
}


// ---------------------------------------------------------------------------
// Laws
// ---------------------------------------------------------------------------

/// The name of a node.
pub open spec fn node_name(n: NodeView) -> Seq<char> {
    match n {
        NodeView::Table(t) => t.name,
        NodeView::Function(f) => f.name,
    }
}

/// A path that names a node names it by its last step: the node found has
/// that step as its name.
pub proof fn lemma_lookup_finds_named(t: TableView, path: Seq<Seq<char>>)
    requires
        lookup(t, path) is Some,
    ensures
        node_name(lookup(t, path)->0) == path.last(),
    decreases path.len(),
{
    lemma_find_function_named(t.functions, path[0]);
    lemma_find_table_named(t.children, path[0]);
    if path.len() > 1 {
        let i = find_table_named(t.children, path[0])->0;
        lemma_lookup_finds_named(t.children[i], path.drop_first());
        assert(path.drop_first().last() == path.last());
    }
}

/// Every nested table's full name is its parent's full name, a dot and its
/// own name, and so is every function's, at every level.
pub open spec fn names_dotted(t: TableView) -> bool
    decreases t,
{
    &&& forall|i: int|
        0 <= i < t.functions.len() ==> (#[trigger] t.functions[i]).full_name == dotted(
            t.full_name,
            t.functions[i].name,
        )
    &&& forall|j: int|
        0 <= j < t.children.len() ==> (#[trigger] t.children[j]).full_name == dotted(
            t.full_name,
            t.children[j].name,
        ) && names_dotted(t.children[j])
}

/// The tree built from a dump has dotted full names throughout.
pub proof fn lemma_built_names_dotted(
    game_dir: Seq<char>,
    parent: Seq<char>,
    t: data::Table,
    reads: Seq<SourceRead>,
)
    ensures
        names_dotted(table_from_data(game_dir, parent, t, reads)),
        table_from_data(game_dir, parent, t, reads).full_name == dotted(parent, t.docs_name@),
    decreases t,
{
    let full = dotted(parent, t.docs_name@);
    lemma_built_children_dotted(game_dir, full, t.params@, reads);
    lemma_built_functions_dotted(game_dir, full, t.params@, reads);
    let tv = table_from_data(game_dir, parent, t, reads);
    assert(tv.full_name == full);
    assert(tv.children == children_from_params(game_dir, full, t.params@, reads));
    assert(tv.functions == functions_from_params(game_dir, full, t.params@, reads));
    assert forall|j: int| 0 <= j < tv.children.len() implies (#[trigger] tv.children[j]).full_name
        == dotted(tv.full_name, tv.children[j].name) && names_dotted(tv.children[j]) by {}
    assert forall|i: int| 0 <= i < tv.functions.len() implies (#[trigger] tv.functions[i]).full_name
        == dotted(tv.full_name, tv.functions[i].name) by {}
}

proof fn lemma_built_children_dotted(
    game_dir: Seq<char>,
    full: Seq<char>,
    params: Seq<(String, data::Node)>,
    reads: Seq<SourceRead>,
)
    ensures
        forall|j: int|
            0 <= j < children_from_params(game_dir, full, params, reads).len() ==> (#[trigger] children_from_params(
                game_dir,
                full,
                params,
                reads,
            )[j]).full_name == dotted(full, children_from_params(game_dir, full, params, reads)[j].name)
                && names_dotted(children_from_params(game_dir, full, params, reads)[j]),
    decreases params,
{
    if params.len() > 0 {
        lemma_built_children_dotted(game_dir, full, params.drop_first(), reads);
        let s = children_from_params(game_dir, full, params, reads);
        let rest = children_from_params(game_dir, full, params.drop_first(), reads);
        match params[0].1 {
            data::Node::Table(t) => {
                lemma_built_names_dotted(game_dir, full, t, reads);
                let c = table_from_data(game_dir, full, t, reads);
                assert(s == seq![c] + rest);
                assert forall|j: int| 0 <= j < s.len() implies (#[trigger] s[j]).full_name == dotted(
                    full,
                    s[j].name,
                ) && names_dotted(s[j]) by {
                    if j > 0 {
                        assert(s[j] == rest[j - 1]);
                    }
                }
            },
            _ => {
                assert(s == Seq::<TableView>::empty() + rest);
                assert(s =~= rest);
            },
        }
    }
}

proof fn lemma_built_functions_dotted(
    game_dir: Seq<char>,
    full: Seq<char>,
    params: Seq<(String, data::Node)>,
    reads: Seq<SourceRead>,
)
    ensures
        forall|j: int|
            0 <= j < functions_from_params(game_dir, full, params, reads).len() ==> (#[trigger] functions_from_params(
                game_dir,
                full,
                params,
                reads,
            )[j]).full_name == dotted(full, functions_from_params(game_dir, full, params, reads)[j].name),
    decreases params.len(),
{
    if params.len() > 0 {
        lemma_built_functions_dotted(game_dir, full, params.drop_first(), reads);
        let s = functions_from_params(game_dir, full, params, reads);
        let rest = functions_from_params(game_dir, full, params.drop_first(), reads);
        match params[0].1 {
            data::Node::Function(f) => {
                let c = function_from_data(game_dir, full, f, reads);
                assert(s == seq![c] + rest);
                assert forall|j: int| 0 <= j < s.len() implies (#[trigger] s[j]).full_name == dotted(
                    full,
                    s[j].name,
                ) by {
                    if j > 0 {
                        assert(s[j] == rest[j - 1]);
                    }
                }
            },
            _ => {
                assert(s == Seq::<FunctionView>::empty() + rest);
                assert(s =~= rest);
            },
        }
    }
}

/// Sorting keeps the full names dotted.
pub proof fn lemma_sorted_names_dotted(o: TableView, n: TableView)
    requires
        sorted_from(o, n),
        names_dotted(o),
    ensures
        names_dotted(n),
    decreases o,
{
    let pf = choose|p: Seq<int>|
        #[trigger] is_stable_sort(function_keys(o.functions), function_keys(n.functions), p) && forall|i: int|
            0 <= i < n.functions.len() ==> n.functions[i] == o.functions[p[i]];
    let pc = choose|p: Seq<int>|
        #[trigger] is_stable_sort(table_keys(o.children), table_keys(n.children), p) && forall|i: int|
            #![trigger n.children[i]]
            0 <= i < n.children.len() ==> 0 <= p[i] < o.children.len() && sorted_from(
                o.children[p[i]],
                n.children[i],
            );
    assert forall|i: int| 0 <= i < n.functions.len() implies (#[trigger] n.functions[i]).full_name
        == dotted(n.full_name, n.functions[i].name) by {
        assert(n.functions[i] == o.functions[pf[i]]);
        assert(0 <= pf[i] < o.functions.len());
    }
    assert forall|j: int| 0 <= j < n.children.len() implies (#[trigger] n.children[j]).full_name
        == dotted(n.full_name, n.children[j].name) && names_dotted(n.children[j]) by {
        let oc = o.children[pc[j]];
        assert(oc.full_name == dotted(o.full_name, oc.name));
        lemma_sorted_names_dotted(oc, n.children[j]);
    }
}

/// Recording call sites changes no name.
pub proof fn lemma_set_calls_keeps_tree_names(
    t: TableView,
    full: Seq<char>,
    calls: Seq<(Seq<char>, Seq<int>)>,
)
    ensures
        function_names(set_calls_spec(t, full, calls).0) == function_names(t),
        set_calls_spec(t, full, calls).0.full_name == t.full_name,
        set_calls_spec(t, full, calls).0.name == t.name,
{
    lemma_set_calls_keeps_names(t, full, calls);
}


// ---------------------------------------------------------------------------
// Every function of the tree, in one list
// ---------------------------------------------------------------------------

/// Every function of `t`: its own, then those of each nested table in turn
/// (the order of `function_names`).
pub open spec fn all_functions(t: TableView) -> Seq<FunctionView>
    decreases t,
{
    t.functions + all_functions_in(t.children)
}

/// Every function in the tables `cs`.
pub open spec fn all_functions_in(cs: Seq<TableView>) -> Seq<FunctionView>
    decreases cs,
{
    if cs.len() == 0 {
        seq![]
    } else {
        all_functions_in(cs.drop_last()) + all_functions(cs.last())
    }
}

/// No two functions of `fs` share a full name.
pub open spec fn distinct_full_names(fs: Seq<FunctionView>) -> bool {
    forall|i: int, j: int| 0 <= i < j < fs.len() ==> #[trigger] fs[i].full_name != #[trigger] fs[j].full_name
}

proof fn lemma_own_names_concat(a: Seq<FunctionView>, b: Seq<FunctionView>)
    ensures
        own_function_names(a + b) == own_function_names(a) + own_function_names(b),
{
    assert(own_function_names(a + b) =~= own_function_names(a) + own_function_names(b));
}

/// The names listed by `function_names` are those of `all_functions`, in
/// the same order.
pub proof fn lemma_function_names_all(t: TableView)
    ensures
        function_names(t) == own_function_names(all_functions(t)),
    decreases t,
{
    lemma_function_names_all_in(t.children);
    lemma_own_names_concat(t.functions, all_functions_in(t.children));
}

proof fn lemma_function_names_all_in(cs: Seq<TableView>)
    ensures
        function_names_in(cs) == own_function_names(all_functions_in(cs)),
    decreases cs,
{
    if cs.len() > 0 {
        lemma_function_names_all_in(cs.drop_last());
        lemma_function_names_all(cs.last());
        lemma_own_names_concat(all_functions_in(cs.drop_last()), all_functions(cs.last()));
    }
}

proof fn lemma_find_full_concat(a: Seq<FunctionView>, b: Seq<FunctionView>, full: Seq<char>)
    ensures
        find_function_full(a + b, full) == match find_function_full(a, full) {
            Some(i) => Some(i),
            None => match find_function_full(b, full) {
                Some(j) => Some(j + a.len()),
                None => None,
            },
        },
    decreases a.len(),
{
    if a.len() > 0 {
        assert((a + b).drop_first() =~= a.drop_first() + b);
        assert((a + b)[0] == a[0]);
        lemma_find_full_concat(a.drop_first(), b, full);
    } else {
        assert(a + b =~= b);
    }
}

/// `find_function_full` is the first position with that full name.
pub proof fn lemma_find_function_full_is(fs: Seq<FunctionView>, full: Seq<char>, k: int)
    requires
        0 <= k < fs.len(),
        fs[k].full_name == full,
        forall|m: int| 0 <= m < k ==> fs[m].full_name != full,
    ensures
        find_function_full(fs, full) == Some(k),
    decreases k,
{
    if k > 0 {
        assert(fs[0].full_name != full);
        assert forall|m: int| 0 <= m < k - 1 implies fs.drop_first()[m].full_name != full by {
            assert(fs.drop_first()[m] == fs[m + 1]);
        }
        lemma_find_function_full_is(fs.drop_first(), full, k - 1);
    }
}

/// `fs` with the call sites of its first function of full name `full` set
/// to `calls`.
pub open spec fn set_first_full(fs: Seq<FunctionView>, full: Seq<char>, calls: Seq<(Seq<char>, Seq<int>)>) -> Seq<
    FunctionView,
> {
    match find_function_full(fs, full) {
        Some(i) => fs.update(i, with_callers(fs[i], calls)),
        None => fs,
    }
}

/// Setting call sites by full name changes, among all functions of the
/// tree, exactly the first one with that full name.
pub proof fn lemma_set_calls_all(t: TableView, full: Seq<char>, calls: Seq<(Seq<char>, Seq<int>)>)
    ensures
        all_functions(set_calls_spec(t, full, calls).0) == set_first_full(all_functions(t), full, calls),
        set_calls_spec(t, full, calls).1 == (find_function_full(all_functions(t), full) is Some),
    decreases t,
{
    let fs = t.functions;
    let rest = all_functions_in(t.children);
    lemma_find_full_concat(fs, rest, full);
    lemma_find_function_full(fs, full);
    lemma_find_function_full(rest, full);
    let n = set_calls_spec(t, full, calls).0;
    match find_function_full(fs, full) {
        Some(i) => {
            assert(all_functions(n) =~= (fs + rest).update(i, with_callers((fs + rest)[i], calls)));
        },
        None => {
            lemma_set_calls_in_all(t.children, full, calls);
            match find_function_full(rest, full) {
                Some(j) => {
                    assert(all_functions(n) =~= (fs + rest).update(
                        j + fs.len(),
                        with_callers((fs + rest)[j + fs.len()], calls),
                    ));
                },
                None => {
                    assert(all_functions(n) =~= fs + rest);
                },
            }
        },
    }
}

/// `lemma_set_calls_all` over the tables `cs`.
pub proof fn lemma_set_calls_in_all(cs: Seq<TableView>, full: Seq<char>, calls: Seq<(Seq<char>, Seq<int>)>)
    ensures
        all_functions_in(set_calls_in(cs, full, calls).0) == set_first_full(all_functions_in(cs), full, calls),
        set_calls_in(cs, full, calls).1 == (find_function_full(all_functions_in(cs), full) is Some),
    decreases cs,
{
    if cs.len() > 0 {
        let dl = cs.drop_last();
        let l = cs.last();
        lemma_set_calls_in_all(dl, full, calls);
        lemma_set_calls_all(l, full, calls);
        let a = all_functions_in(dl);
        let b = all_functions(l);
        lemma_find_full_concat(a, b, full);
        lemma_find_function_full(a, full);
        lemma_find_function_full(b, full);
        let r = set_calls_in(dl, full, calls);
        if r.1 {
            let n = r.0.push(l);
            assert(n.drop_last() =~= r.0);
            assert(n.last() == l);
            assert(all_functions_in(n) == all_functions_in(r.0) + b);
            let i = find_function_full(a, full)->0;
            assert(all_functions_in(n) =~= (a + b).update(i, with_callers((a + b)[i], calls)));
        } else {
            lemma_set_calls_in_unchanged(dl, full, calls);
            let h = set_calls_spec(l, full, calls);
            let n = r.0.push(h.0);
            assert(n.drop_last() =~= dl);
            assert(n.last() == h.0);
            assert(all_functions_in(n) == a + all_functions(h.0));
            match find_function_full(b, full) {
                Some(j) => {
                    assert(all_functions_in(n) =~= (a + b).update(
                        j + a.len(),
                        with_callers((a + b)[j + a.len()], calls),
                    ));
                },
                None => {
                    assert(all_functions_in(n) =~= a + b);
                },
            }
        }
    }
}

// ---------------------------------------------------------------------------
// Sorted order
// ---------------------------------------------------------------------------

/// The functions and the nested tables of `t`, and of every table in it,
/// are in the order of their names in ASCII lower case.
pub open spec fn names_in_order(t: TableView) -> bool
    decreases t,
{
    &&& forall|i: int, j: int|
        0 <= i < j < t.functions.len() ==> text::lex_le(
            text::to_ascii_lowercase(#[trigger] t.functions[i].name),
            text::to_ascii_lowercase(#[trigger] t.functions[j].name),
        )
    &&& forall|i: int, j: int|
        0 <= i < j < t.children.len() ==> text::lex_le(
            text::to_ascii_lowercase(#[trigger] t.children[i].name),
            text::to_ascii_lowercase(#[trigger] t.children[j].name),
        )
    &&& forall|j: int| 0 <= j < t.children.len() ==> names_in_order(#[trigger] t.children[j])
}

/// A sorted tree has its functions and tables in the order of their whole
/// names in ASCII lower case, at every level.
pub proof fn lemma_sorted_names_in_order(o: TableView, n: TableView)
    requires
        sorted_from(o, n),
    ensures
        names_in_order(n),
    decreases o,
{
    let pf = choose|p: Seq<int>|
        #[trigger] is_stable_sort(function_keys(o.functions), function_keys(n.functions), p) && forall|i: int|
            0 <= i < n.functions.len() ==> n.functions[i] == o.functions[p[i]];
    let pc = choose|p: Seq<int>|
        #[trigger] is_stable_sort(table_keys(o.children), table_keys(n.children), p) && forall|i: int|
            #![trigger n.children[i]]
            0 <= i < n.children.len() ==> 0 <= p[i] < o.children.len() && sorted_from(
                o.children[p[i]],
                n.children[i],
            );
    let fk = function_keys(n.functions);
    let tk = table_keys(n.children);
    assert forall|i: int, j: int| 0 <= i < j < n.functions.len() implies text::lex_le(
        text::to_ascii_lowercase(#[trigger] n.functions[i].name),
        text::to_ascii_lowercase(#[trigger] n.functions[j].name),
    ) by {
        assert(text::lex_le(fk[i], fk[j]));
    }
    assert forall|i: int, j: int| 0 <= i < j < n.children.len() implies text::lex_le(
        text::to_ascii_lowercase(#[trigger] n.children[i].name),
        text::to_ascii_lowercase(#[trigger] n.children[j].name),
    ) by {
        assert(text::lex_le(tk[i], tk[j]));
    }
    assert forall|j: int| 0 <= j < n.children.len() implies names_in_order(#[trigger] n.children[j]) by {
        lemma_sorted_names_in_order(o.children[pc[j]], n.children[j]);
    }
}


/// Sorting only reorders: the sorted functions and tables of the top level
/// are those of the original, and two with the same name in ASCII lower case
/// keep their original order.
pub proof fn lemma_sorted_keeps_ties(o: TableView, n: TableView)
    requires
        sorted_from(o, n),
    ensures
        exists|p: Seq<int>|
            #[trigger] is_permutation(p, o.functions.len() as int) && n.functions.len() == o.functions.len()
                && (forall|i: int| 0 <= i < n.functions.len() ==> n.functions[i] == o.functions[p[i]]) && (forall|
                i: int,
                j: int,
            |
                0 <= i < j < n.functions.len() && text::to_ascii_lowercase(#[trigger] n.functions[i].name)
                    == text::to_ascii_lowercase(#[trigger] n.functions[j].name) ==> p[i] < p[j]),
        exists|p: Seq<int>|
            #[trigger] is_permutation(p, o.children.len() as int) && n.children.len() == o.children.len() && (forall|
                i: int,
            | 0 <= i < n.children.len() ==> n.children[i].name == o.children[p[i]].name) && (forall|i: int, j: int|
                0 <= i < j < n.children.len() && text::to_ascii_lowercase(#[trigger] n.children[i].name)
                    == text::to_ascii_lowercase(#[trigger] n.children[j].name) ==> p[i] < p[j]),
{
    let pf = choose|p: Seq<int>|
        #[trigger] is_stable_sort(function_keys(o.functions), function_keys(n.functions), p) && forall|i: int|
            0 <= i < n.functions.len() ==> n.functions[i] == o.functions[p[i]];
    let pc = choose|p: Seq<int>|
        #[trigger] is_stable_sort(table_keys(o.children), table_keys(n.children), p) && forall|i: int|
            #![trigger n.children[i]]
            0 <= i < n.children.len() ==> 0 <= p[i] < o.children.len() && sorted_from(
                o.children[p[i]],
                n.children[i],
            );
    let fk = function_keys(n.functions);
    let tk = table_keys(n.children);
    assert forall|i: int, j: int|
        0 <= i < j < n.functions.len() && text::to_ascii_lowercase(#[trigger] n.functions[i].name)
            == text::to_ascii_lowercase(#[trigger] n.functions[j].name) implies pf[i] < pf[j] by {
        assert(fk[i] == fk[j]);
    }
    assert forall|i: int| 0 <= i < n.children.len() implies n.children[i].name == o.children[pc[i]].name by {
        assert(sorted_from(o.children[pc[i]], n.children[i]));
    }
    assert forall|i: int, j: int|
        0 <= i < j < n.children.len() && text::to_ascii_lowercase(#[trigger] n.children[i].name)
            == text::to_ascii_lowercase(#[trigger] n.children[j].name) implies pc[i] < pc[j] by {
        assert(tk[i] == tk[j]);
    }
    assert(is_permutation(pf, o.functions.len() as int));
    assert(is_permutation(pc, o.children.len() as int));
}

} // verus!
