//! The documentation site: finding the page for a path and rendering pages
//! into the HTML template.
use vstd::prelude::*;
use std::collections::VecDeque;
use crate::ir::{self, Function, Node, NodeView, Table, TableView};
use crate::lookup::{CodeFile, CodeIndex};
use crate::markdown_gen;
use crate::text;

verus! {

broadcast use vstd::string::group_string_axioms;

// ---------------------------------------------------------------------------
// Markdown to HTML
// ---------------------------------------------------------------------------

/// The error type of the markdown crate.
#[verifier::external_type_specification]
#[verifier::external_body]
pub struct ExMessage(markdown::message::Message);

/// The HTML that `markdown::to_html_with_options` makes of `md` with raw
/// HTML and every link protocol allowed.
pub uninterp spec fn markdown_html(md: Seq<char>) -> Seq<char>;

/// `markdown::to_html_with_options` with raw HTML and every link protocol
/// allowed and every other option left at its default. The crate documents
/// that it fails only where MDX is turned on, which it is not here; the
/// contract states that, and names the HTML, which is a function of `md`.
#[verifier::external_body]
fn markdown_to_html(md: &str) -> (r: Result<String, markdown::message::Message>)
    ensures
        r is Ok,
        r matches Ok(html) ==> html@ == markdown_html(md@),
{
    markdown::to_html_with_options(
        md,
        &markdown::Options {
            compile: markdown::CompileOptions {
                allow_dangerous_html: true,
                allow_dangerous_protocol: true,
                ..Default::default()
            },
            ..Default::default()
        },
    )
}

// ---------------------------------------------------------------------------
// The state of the site
// ---------------------------------------------------------------------------

/// The markdown pages and templates of the site.
#[derive(Debug)]
pub struct Pages {
    pub root: String,
    pub search: String,
    pub not_found: String,
    pub table_template: String,
    pub function_template: String,
}

/// Everything the site serves from: the HTML template, the URL prefix, the
/// GE and VE documentation trees, the source files, and the (full name,
/// name) pairs of every function and table for searching.
pub struct AppState {
    pub html_template: String,
    pub url_prefix: String,
    pub ge_data: Table,
    pub ve_data: Table,
    pub code: CodeIndex,
    pub all_func_names: Vec<(String, String)>,
    pub all_child_names: Vec<(String, String)>,
    pub pages: Pages,
}

/// The node that `path` names on the site: its first step picks the GE or VE
/// tree, the rest leads into it (see `ir::lookup`).
pub open spec fn site_lookup(ge: TableView, ve: TableView, path: Seq<Seq<char>>) -> Option<NodeView> {
    if path.len() == 0 {
        None
    } else if path[0] == "GE"@ {
        if path.len() == 1 {
            Some(NodeView::Table(ge))
        } else {
            ir::lookup(ge, path.drop_first())
        }
    } else if path[0] == "VE"@ {
        if path.len() == 1 {
            Some(NodeView::Table(ve))
        } else {
            ir::lookup(ve, path.drop_first())
        }
    } else {
        None
    }
}

/// Every function of `t` has its shown call lines in range.
pub open spec fn calls_ok(t: TableView, code: Seq<CodeFile>) -> bool
    decreases t,
{
    &&& forall|i: int|
        0 <= i < t.functions.len() ==> markdown_gen::caller_lines_in_range(
            #[trigger] t.functions[i],
            code,
        )
    &&& forall|j: int| 0 <= j < t.children.len() ==> calls_ok(#[trigger] t.children[j], code)
}

/// A node found in a tree whose call lines are in range can have its page
/// made.
pub proof fn lemma_lookup_page_ok(t: TableView, path: Seq<Seq<char>>, code: Seq<CodeFile>)
    requires
        calls_ok(t, code),
        ir::lookup(t, path) is Some,
    ensures
        markdown_gen::page_ok(ir::lookup(t, path)->0, code),
    decreases path.len(),
{
    ir::lemma_find_function_named(t.functions, path[0]);
    ir::lemma_find_table_named(t.children, path[0]);
    if path.len() > 1 {
        let i = ir::find_table_named(t.children, path[0])->0;
        lemma_lookup_page_ok(t.children[i], path.drop_first(), code);
    }
}

impl AppState {
    /// The site's state: the trees, the source files, and the names of every
    /// function (GE's first) and every table (GE's first) for searching.
    pub fn new(
        html_template: String,
        url_prefix: String,
        ge_data: Table,
        ve_data: Table,
        code: CodeIndex,
        pages: Pages,
    ) -> (r: Self)
        ensures
            r.html_template == html_template,
            r.url_prefix == url_prefix,
            r.ge_data == ge_data,
            r.ve_data == ve_data,
            r.code == code,
            r.pages == pages,
            ir::pair_views(r.all_func_names@) == ir::function_names(ge_data@) + ir::function_names(
                ve_data@,
            ),
            ir::pair_views(r.all_child_names@) == ir::child_names(ge_data@) + ir::child_names(
                ve_data@,
            ),
    {
        let mut all_func_names = ge_data.get_all_function_names();
        let mut more = ve_data.get_all_function_names();
        let ghost a = all_func_names@;
        let ghost b = more@;
        all_func_names.append(&mut more);
        assert(ir::pair_views(all_func_names@) =~= ir::pair_views(a) + ir::pair_views(b));
        let mut all_child_names = ge_data.get_all_children_names();
        let mut more = ve_data.get_all_children_names();
        let ghost a = all_child_names@;
        let ghost b = more@;
        all_child_names.append(&mut more);
        assert(ir::pair_views(all_child_names@) =~= ir::pair_views(a) + ir::pair_views(b));
        AppState {
            html_template,
            url_prefix,
            ge_data,
            ve_data,
            code,
            all_func_names,
            all_child_names,
            pages,
        }
    }

    /// The site's template with the top-level name `tln`, the page's HTML
    /// `html` and the URL prefix put in.
    pub fn fill_html_template(&self, tln: &str, html: &str) -> (r: String)
        ensures
            r@ == text::replace_all(
                text::replace_all(
                    text::replace_all(self.html_template@, "{{TLN}}"@, tln@),
                    "{{PAGE_CONTENT}}"@,
                    html@,
                ),
                "{{URL_PREFIX}}"@,
                self.url_prefix@,
            ),
    {
        proof {
            reveal_strlit("{{TLN}}");
            reveal_strlit("{{PAGE_CONTENT}}");
            reveal_strlit("{{URL_PREFIX}}");
        }
        let r = text::replace_str(self.html_template.as_str(), "{{TLN}}", tln);
        let r = text::replace_str(r.as_str(), "{{PAGE_CONTENT}}", html);
        text::replace_str(r.as_str(), "{{URL_PREFIX}}", self.url_prefix.as_str())
    }

    /// The markdown `md` turned into HTML and put into the site's template,
    /// with the top-level name `tln` and the URL prefix.
    pub fn template_page(&self, tln: &str, md: &str) -> (r: String)
        ensures
            r@ == self.template_page_spec(tln@, md@),
    {
        let md_html = match markdown_to_html(md) {
            Ok(h) => h,
            Err(_) => {
                proof {
                    assert(false);
                }
                String::new()
            },
        };
        self.fill_html_template(tln, md_html.as_str())
    }

    /// The root page.
    pub fn get_root(&self) -> (r: String)
        ensures
            r@ == self.template_page_spec("BeamNG"@, self.pages.root@),
    {
        self.template_page("BeamNG", self.pages.root.as_str())
    }

    /// The page for a path that names nothing.
    pub fn get_404(&self) -> (r: String)
        ensures
            r@ == self.template_page_spec("BeamNG"@, self.pages.not_found@),
    {
        self.template_page("BeamNG", self.pages.not_found.as_str())
    }

    /// What `template_page` gives.
    pub open spec fn template_page_spec(&self, tln: Seq<char>, md: Seq<char>) -> Seq<char> {
        text::replace_all(
            text::replace_all(
                text::replace_all(self.html_template@, "{{TLN}}"@, tln),
                "{{PAGE_CONTENT}}"@,
                markdown_html(md),
            ),
            "{{URL_PREFIX}}"@,
            self.url_prefix@,
        )
    }

    /// The node that `path` names (see `site_lookup`), copied.
    pub fn get_data(&self, path: Vec<String>) -> (r: Option<Node>)
        ensures
            ir::node_option_view(r) == site_lookup(self.ge_data@, self.ve_data@, text::views(path@)),
            path@.len() > 1 && path@[0]@ == "GE"@ ==> ir::node_option_view(r) == ir::lookup(
                self.ge_data@,
                text::views(path@).drop_first(),
            ),
            path@.len() > 1 && path@[0]@ == "VE"@ ==> ir::node_option_view(r) == ir::lookup(
                self.ve_data@,
                text::views(path@).drop_first(),
            ),
    {
        let ghost p = text::views(path@);
        proof {
            if p.len() > 1 {
                lemma_site_paths(self.ge_data@, self.ve_data@, p.drop_first());
                assert(seq![p[0]] + p.drop_first() =~= p);
            }
        }
        if path.len() == 0 {
            return None;
        }
        let first = text::to_chars(path[0].as_str());
        let mut remaining: VecDeque<String> = VecDeque::new();
        let mut i: usize = 1;
        while i < path.len()
            invariant
                1 <= i <= path@.len(),
                p == text::views(path@),
                text::views(remaining@) == p.subrange(1, i as int),
            decreases path@.len() - i,
        {
            let ghost before = text::views(remaining@);
            remaining.push_back(path[i].clone());
            assert(text::views(remaining@) =~= before.push(p[i as int]));
            assert(p.subrange(1, i + 1) =~= p.subrange(1, i as int).push(p[i as int]));
            i = i + 1;
        }
        assert(p.subrange(1, p.len() as int) =~= p.drop_first());
        broadcast use vstd::std_specs::vecdeque::axiom_spec_len;

        if text::chars_eq(&first, &text::to_chars("GE")) {
            if remaining.len() == 0 {
                Some(Node::Table(self.ge_data.clone()))
            } else {
                self.ge_data.get_data(remaining)
            }
        } else if text::chars_eq(&first, &text::to_chars("VE")) {
            if remaining.len() == 0 {
                Some(Node::Table(self.ve_data.clone()))
            } else {
                self.ve_data.get_data(remaining)
            }
        } else {
            None
        }
    }

    /// Both trees have their shown call lines in range.
    pub open spec fn wf(&self) -> bool {
        calls_ok(self.ge_data@, self.code.files@) && calls_ok(self.ve_data@, self.code.files@)
    }
}


/// The call lines of `f` that its page shows are all in range.
pub fn function_calls_in_range(f: &Function, code: &CodeIndex) -> (r: bool)
    ensures
        r == markdown_gen::caller_lines_in_range(f@, code.files@),
{
    let ghost fv = f@;
    let mut k: usize = 0;
    while k < f.callers.len()
        invariant
            k <= f.callers@.len(),
            fv == f@,
            fv.callers.len() == f.callers@.len(),
            forall|a: int, m: int|
                0 <= a < k && 0 <= m < fv.callers[a].1.len() && crate::lookup::file_at(
                    code.files@,
                    fv.callers[a].0,
                ) is Some && !markdown_gen::is_own_def(fv, fv.callers[a].0, fv.callers[a].1[m]) ==> 1
                    <= #[trigger] fv.callers[a].1[m] < usize::MAX,
        decreases f.callers@.len() - k,
    {
        let src = &f.callers[k].0;
        let lines = &f.callers[k].1;
        assert(fv.callers[k as int] == (src@, text::ints(lines@)));
        proof {
            crate::lookup::lemma_find_file(code.files@, src@);
        }
        if code.get(src.as_str()).is_some() {
            assert(crate::lookup::file_at(code.files@, src@) is Some);
            let mut m: usize = 0;
            while m < lines.len()
                invariant
                    m <= lines@.len(),
                    k < fv.callers.len(),
                    crate::lookup::file_at(code.files@, src@) is Some,
                    fv == f@,
                    fv.callers[k as int] == (src@, text::ints(lines@)),
                    forall|q: int|
                        0 <= q < m && !markdown_gen::is_own_def(fv, src@, lines@[q] as int) ==> 1
                            <= #[trigger] lines@[q] < usize::MAX,
                decreases lines@.len() - m,
            {
                let i = lines[m];
                let own = *src == f.source && (i as isize) == f.func_def_start;
                assert(own == markdown_gen::is_own_def(fv, src@, i as int));
                if !own && (i < 1 || i == usize::MAX) {
                    assert(fv.callers[k as int].1[m as int] == i as int);
                    assert(crate::lookup::file_at(code.files@, fv.callers[k as int].0) is Some);
                    return false;
                }
                m = m + 1;
            }
            assert forall|q: int|
                0 <= q < fv.callers[k as int].1.len() && !markdown_gen::is_own_def(fv, src@, fv.callers[k as int].1[q]) implies 1
                    <= #[trigger] fv.callers[k as int].1[q] < usize::MAX by {
                assert(fv.callers[k as int].1[q] == lines@[q] as int);
            }
        }
        k = k + 1;
    }
    true
}

impl Table {
    /// Every function in the table has its shown call lines in range (see
    /// `calls_ok`).
    pub fn calls_in_range(&self, code: &CodeIndex) -> (r: bool)
        ensures
            r == calls_ok(self@, code.files@),
        decreases self,
    {
        proof {
            ir::lemma_table_view(*self);
        }
        let mut i: usize = 0;
        while i < self.functions.len()
            invariant
                i <= self.functions@.len(),
                self@.functions == ir::function_views(self.functions@),
                forall|j: int|
                    0 <= j < i ==> markdown_gen::caller_lines_in_range(
                        #[trigger] self@.functions[j],
                        code.files@,
                    ),
            decreases self.functions@.len() - i,
        {
            if !function_calls_in_range(&self.functions[i], code) {
                assert(self@.functions[i as int] == self.functions@[i as int]@);
                return false;
            }
            i = i + 1;
        }
        let mut j: usize = 0;
        while j < self.children.len()
            invariant
                j <= self.children@.len(),
                self@.children.len() == self.children@.len(),
                forall|q: int| 0 <= q < self.children@.len() ==> self@.children[q] == #[trigger] self.children@[q]@,
                forall|q: int| 0 <= q < j ==> calls_ok(#[trigger] self@.children[q], code.files@),
            decreases self.children@.len() - j,
        {
            if !self.children[j].calls_in_range(code) {
                assert(self@.children[j as int] == self.children@[j as int]@);
                return false;
            }
            j = j + 1;
        }
        true
    }
}

/// The markdown page that `page_md` makes: from `custom` where there is one,
/// else from the template for the node's kind.
pub open spec fn page_markdown(pages: Pages, custom: Option<String>, path: Seq<Seq<char>>, node: NodeView, code: Seq<CodeFile>) -> Seq<char> {
    match custom {
        Some(c) => markdown_gen::page(c@, path, node, code),
        None => markdown_gen::page(
            match node {
                NodeView::Table(_) => pages.table_template@,
                NodeView::Function(_) => pages.function_template@,
            },
            path,
            node,
            code,
        ),
    }
}

/// The steps of a page path: the path without leading and trailing `/`,
/// split at `/`.
pub open spec fn path_steps(path: Seq<char>) -> Seq<Seq<char>> {
    text::split_char(text::trim_char(path, '/'), '/')
}

/// Splitting always gives at least one piece.
proof fn lemma_split_nonempty(s: Seq<char>, c: char)
    ensures
        text::split_char(s, c).len() >= 1,
{
    text::lemma_find_char(s, c);
}

impl AppState {
    /// Both trees have their shown call lines in range (`wf`).
    pub fn calls_in_range(&self) -> (r: bool)
        ensures
            r == self.wf(),
    {
        self.ge_data.calls_in_range(&self.code) && self.ve_data.calls_in_range(&self.code)
    }

    /// The path of the file that holds a hand-written template for the page
    /// at `path`.
    pub fn page_content_path(path: &str) -> (r: String)
        ensures
            r@ == "content/"@ + text::trim_char(path@, '/') + ".md"@,
    {
        let p = text::trim_char_str(path, '/');
        let mut r = text::owned("content/");
        text::push_str(&mut r, p.as_str());
        text::push_str(&mut r, ".md");
        r
    }

    /// The page at `path`: its first step (the name of its tree) and its
    /// markdown, made from the hand-written template `custom` where there is
    /// one; `None` where the path names nothing.
    pub fn get_page(&self, path: String, custom: Option<String>) -> (r: Option<(String, String)>)
        requires
            self.wf(),
        ensures
            ({
                let steps = path_steps(path@);
                match site_lookup(self.ge_data@, self.ve_data@, steps) {
                    Some(node) => r matches Some(pair) && pair.0@ == steps[0] && pair.1@ == page_markdown(
                        self.pages,
                        custom,
                        steps,
                        node,
                        self.code.files@,
                    ),
                    None => r is None,
                }
            }),
    {
        let trimmed = text::trim_char_str(path.as_str(), '/');
        let path_split = text::split_char_str(trimmed.as_str(), '/');
        let ghost steps = text::views(path_split@);
        proof {
            lemma_split_nonempty(trimmed@, '/');
        }
        let first = path_split[0].clone();
        let node = match self.get_data(text::clone_strings(&path_split)) {
            Some(n) => n,
            None => {
                return None;
            },
        };
        proof {
            let n = node@;
            if steps[0] == "GE"@ && steps.len() > 1 {
                lemma_lookup_page_ok(self.ge_data@, steps.drop_first(), self.code.files@);
            } else if steps[0] == "VE"@ && steps.len() > 1 {
                lemma_lookup_page_ok(self.ve_data@, steps.drop_first(), self.code.files@);
            }
            assert(markdown_gen::page_ok(n, self.code.files@));
        }
        let md = match custom {
            Some(c) => markdown_gen::gen_page_md_template(c.as_str(), path_split, node, &self.code),
            None => markdown_gen::gen_page_md(
                self.pages.table_template.as_str(),
                self.pages.function_template.as_str(),
                path_split,
                node,
                &self.code,
            ),
        };
        Some((first, md))
    }

    /// The search page listing the tables and functions with the given full
    /// names, each linked to its page.
    pub fn get_search_page(&self, full_names: &[String]) -> (r: String)
        ensures
            r@ == self.template_page_spec(
                "BeamNG"@,
                text::replace_all(
                    self.pages.search@,
                    "{{SEARCH_RESULTS}}"@,
                    text::join(
                        Seq::new(
                            full_names@.len(),
                            |i: int|
                                "- [`"@ + full_names@[i]@ + "`](<"@ + markdown_gen::link_of(
                                    full_names@[i]@,
                                ) + ">)"@,
                        ),
                        "\n"@,
                    ),
                ),
            ),
    {
        let mut content: Vec<String> = Vec::new();
        let mut i: usize = 0;
        while i < full_names.len()
            invariant
                i <= full_names@.len(),
                content@.len() == i,
                forall|j: int|
                    0 <= j < i ==> (#[trigger] content@[j])@ == "- [`"@ + full_names@[j]@ + "`](<"@
                        + markdown_gen::link_of(full_names@[j]@) + ">)"@,
            decreases full_names@.len() - i,
        {
            let link = markdown_gen::link_to(full_names[i].as_str());
            let mut item = text::owned("- [`");
            text::push_str(&mut item, full_names[i].as_str());
            text::push_str(&mut item, "`](<");
            text::push_str(&mut item, link.as_str());
            text::push_str(&mut item, ">)");
            content.push(item);
            i = i + 1;
        }
        assert(text::views(content@) =~= Seq::new(
            full_names@.len(),
            |i: int|
                "- [`"@ + full_names@[i]@ + "`](<"@ + markdown_gen::link_of(full_names@[i]@) + ">)"@,
        ));
        let joined = text::join_strings(&content, "\n");
        proof {
            reveal_strlit("{{SEARCH_RESULTS}}");
        }
        let page = text::replace_str(self.pages.search.as_str(), "{{SEARCH_RESULTS}}", joined.as_str());
        self.template_page("BeamNG", page.as_str())
    }
}


// ---------------------------------------------------------------------------
// Links lead back to their pages
// ---------------------------------------------------------------------------

/// The full name of a node.
pub open spec fn node_full_name(n: NodeView) -> Seq<char> {
    match n {
        NodeView::Table(t) => t.full_name,
        NodeView::Function(f) => f.full_name,
    }
}

/// The steps `q`, each after a separator `sep`.
pub open spec fn steps_after(q: Seq<Seq<char>>, sep: char) -> Seq<char>
    decreases q.len(),
{
    if q.len() == 0 {
        seq![]
    } else {
        seq![sep] + q[0] + steps_after(q.drop_first(), sep)
    }
}

/// A step of a path that a link can carry: not empty, without dots and
/// slashes.
pub open spec fn plain_step(x: Seq<char>) -> bool {
    x.len() > 0 && !x.contains('.') && !x.contains('/')
}

/// The full name of the node that a path leads to from a table whose full
/// names are dotted: the table's full name followed by the steps, each after
/// a dot.
pub proof fn lemma_lookup_full_name(t: TableView, q: Seq<Seq<char>>)
    requires
        ir::names_dotted(t),
        ir::lookup(t, q) is Some,
    ensures
        node_full_name(ir::lookup(t, q)->0) == t.full_name + steps_after(q, '.'),
    decreases q.len(),
{
    reveal_strlit(".");
    ir::lemma_find_function_named(t.functions, q[0]);
    ir::lemma_find_table_named(t.children, q[0]);
    let rest = q.drop_first();
    if q.len() == 1 {
        assert(steps_after(rest, '.') =~= Seq::<char>::empty());
        assert(t.full_name + steps_after(q, '.') =~= ir::dotted(t.full_name, q[0]));
    } else {
        let i = ir::find_table_named(t.children, q[0])->0;
        let c = t.children[i];
        lemma_lookup_full_name(c, rest);
        assert(c.full_name + steps_after(rest, '.') =~= t.full_name + steps_after(q, '.'));
    }
}

/// Turning each `.` into `/` works piece by piece.
proof fn lemma_replace_dot_concat(a: Seq<char>, b: Seq<char>)
    ensures
        text::replace_all(a + b, "."@, "/"@) == text::replace_all(a, "."@, "/"@) + text::replace_all(
            b,
            "."@,
            "/"@,
        ),
    decreases a.len(),
{
    reveal_strlit(".");
    reveal_strlit("/");
    if a.len() == 0 {
        assert(a + b =~= b);
        assert(text::replace_all(a, "."@, "/"@) =~= Seq::<char>::empty());
    } else {
        let ab = a + b;
        assert(ab[0] == a[0]);
        assert(ab.skip(1) =~= a.skip(1) + b);
        lemma_replace_dot_concat(a.skip(1), b);
        assert(text::starts_with(ab, "."@) == text::starts_with(a, "."@)) by {
            assert(ab.subrange(0, 1) =~= seq![a[0]]);
            assert(a.subrange(0, 1) =~= seq![a[0]]);
        }
    }
}

/// A sequence without dots is kept as it is.
proof fn lemma_replace_dot_none(a: Seq<char>)
    requires
        !a.contains('.'),
    ensures
        text::replace_all(a, "."@, "/"@) == a,
    decreases a.len(),
{
    reveal_strlit(".");
    if a.len() > 0 {
        assert(a.skip(1).contains('.') ==> a.contains('.')) by {
            if a.skip(1).contains('.') {
                let k = choose|k: int| 0 <= k < a.skip(1).len() && a.skip(1)[k] == '.';
                assert(a[k + 1] == '.');
            }
        }
        lemma_replace_dot_none(a.skip(1));
        assert(!text::starts_with(a, "."@)) by {
            if text::starts_with(a, "."@) {
                assert(a.subrange(0, 1)[0] == a[0]);
                assert(a[0] == '.');
            }
        }
        assert(a =~= seq![a[0]] + a.skip(1));
    }
}

/// The steps after dots, with every dot turned into a slash, are the steps
/// after slashes.
proof fn lemma_replace_steps(q: Seq<Seq<char>>)
    requires
        forall|i: int| 0 <= i < q.len() ==> plain_step(#[trigger] q[i]),
    ensures
        text::replace_all(steps_after(q, '.'), "."@, "/"@) == steps_after(q, '/'),
    decreases q.len(),
{
    reveal_strlit(".");
    reveal_strlit("/");
    if q.len() == 0 {
        assert(text::replace_all(seq![], "."@, "/"@) =~= Seq::<char>::empty());
    } else {
        let rest = q.drop_first();
        assert forall|i: int| 0 <= i < rest.len() implies plain_step(#[trigger] rest[i]) by {
            assert(rest[i] == q[i + 1]);
        }
        lemma_replace_steps(rest);
        assert(plain_step(q[0]));
        lemma_replace_dot_concat(seq!['.'] + q[0], steps_after(rest, '.'));
        lemma_replace_dot_concat(seq!['.'], q[0]);
        lemma_replace_dot_none(q[0]);
        let one = seq!['.'];
        assert(one.skip(1) =~= Seq::<char>::empty());
        assert(text::starts_with(one, "."@)) by {
            assert(one.subrange(0, 1) =~= "."@);
        }
        assert(text::replace_all(one, "."@, "/"@) =~= "/"@ + text::replace_all(
            Seq::<char>::empty(),
            "."@,
            "/"@,
        ));
        assert(text::replace_all(one, "."@, "/"@) =~= seq!['/']);
        assert(steps_after(q, '.') =~= (seq!['.'] + q[0]) + steps_after(rest, '.'));
        assert(steps_after(q, '/') =~= (seq!['/'] + q[0]) + steps_after(rest, '/'));
    }
}

/// Splitting at slashes gives back the steps.
proof fn lemma_split_steps(a: Seq<char>, q: Seq<Seq<char>>)
    requires
        !a.contains('/'),
        forall|i: int| 0 <= i < q.len() ==> plain_step(#[trigger] q[i]),
    ensures
        text::split_char(a + steps_after(q, '/'), '/') == seq![a] + q,
    decreases q.len(),
{
    let w = a + steps_after(q, '/');
    text::lemma_find_char(w, '/');
    if q.len() == 0 {
        assert(w =~= a);
        if text::find_char(w, '/') is Some {
            let k = text::find_char(w, '/')->0;
            assert(a[k] == '/');
        }
        assert(seq![a] + q =~= seq![a]);
    } else {
        let rest = q.drop_first();
        assert forall|i: int| 0 <= i < rest.len() implies plain_step(#[trigger] rest[i]) by {
            assert(rest[i] == q[i + 1]);
        }
        assert(plain_step(q[0]));
        lemma_split_steps(q[0], rest);
        assert(w =~= a + seq!['/'] + (q[0] + steps_after(rest, '/')));
        assert(w[a.len() as int] == '/');
        assert forall|j: int| 0 <= j < a.len() implies w[j] != '/' by {
            assert(w[j] == a[j]);
        }
        text::lemma_find_char_is(w, '/', a.len() as int);
        assert(w.take(a.len() as int) =~= a);
        assert(w.skip(a.len() as int + 1) =~= q[0] + steps_after(rest, '/'));
        assert(seq![a] + (seq![q[0]] + rest) =~= seq![a] + q);
    }
}

/// Trimming slashes off a path that starts with one slash and neither
/// starts nor ends otherwise with a slash leaves the rest.
proof fn lemma_trim_slashes(w: Seq<char>)
    requires
        w.len() > 0,
        w[0] != '/',
        w.last() != '/',
    ensures
        text::trim_char(seq!['/'] + w, '/') == w,
{
    let x = seq!['/'] + w;
    assert(x.drop_first() =~= w);
    assert(text::trim_start_char(x, '/') == text::trim_start_char(w, '/'));
    assert(text::trim_start_char(w, '/') == w);
}

/// The link of a node found in a tree whose full names are dotted from
/// `.` + `tn` is `/tn/...`, and its steps are `tn` and the path that found
/// it, provided every step is a plain name.
proof fn lemma_link_steps(t: TableView, tn: Seq<char>, q: Seq<Seq<char>>)
    requires
        ir::names_dotted(t),
        t.full_name == seq!['.'] + tn,
        plain_step(tn),
        ir::lookup(t, q) is Some,
        forall|i: int| 0 <= i < q.len() ==> plain_step(#[trigger] q[i]),
    ensures
        path_steps(markdown_gen::link_of(node_full_name(ir::lookup(t, q)->0))) == seq![tn] + q,
{
    reveal_strlit(".");
    reveal_strlit("/");
    lemma_lookup_full_name(t, q);
    let full = node_full_name(ir::lookup(t, q)->0);
    lemma_replace_dot_concat(seq!['.'], tn);
    lemma_replace_dot_concat(seq!['.'] + tn, steps_after(q, '.'));
    lemma_replace_dot_none(tn);
    lemma_replace_steps(q);
    let one = seq!['.'];
    assert(one.skip(1) =~= Seq::<char>::empty());
    assert(text::starts_with(one, "."@)) by {
        assert(one.subrange(0, 1) =~= "."@);
    }
    assert(text::replace_all(one, "."@, "/"@) =~= "/"@ + text::replace_all(Seq::<char>::empty(), "."@, "/"@));
    let w = tn + steps_after(q, '/');
    assert(markdown_gen::link_of(full) =~= seq!['/'] + w);
    assert(q.len() > 0);
    let rest = q.drop_first();
    assert(steps_after(q, '/') =~= seq!['/'] + q[0] + steps_after(rest, '/'));
    assert(plain_step(q[0]));
    lemma_last_of_steps(q);
    assert(tn[0] != '/') by {
        if tn[0] == '/' {
            assert(tn.contains('/'));
        }
    }
    assert(w[0] == tn[0]);
    assert(w.last() == steps_after(q, '/').last());
    lemma_trim_slashes(w);
    lemma_split_steps(tn, q);
}

/// The node that a site path names: `/GE` and `/VE` are the two trees, and
/// the rest of a path is looked up in the tree that its first step names.
pub proof fn lemma_site_paths(ge: TableView, ve: TableView, q: Seq<Seq<char>>)
    ensures
        site_lookup(ge, ve, seq!["GE"@]) == Some(NodeView::Table(ge)),
        site_lookup(ge, ve, seq!["VE"@]) == Some(NodeView::Table(ve)),
        q.len() > 0 ==> site_lookup(ge, ve, seq!["GE"@] + q) == ir::lookup(ge, q),
        q.len() > 0 ==> site_lookup(ge, ve, seq!["VE"@] + q) == ir::lookup(ve, q),
        forall|first: Seq<char>|
            first != "GE"@ && first != "VE"@ ==> #[trigger] site_lookup(ge, ve, seq![first] + q) is None,
{
    reveal_strlit("GE");
    reveal_strlit("VE");
    assert("GE"@ != "VE"@) by {
        assert("GE"@[0] != "VE"@[0]);
    }
    assert((seq!["GE"@] + q).drop_first() =~= q);
    assert((seq!["VE"@] + q).drop_first() =~= q);
    assert forall|first: Seq<char>| first != "GE"@ && first != "VE"@ implies #[trigger] site_lookup(
        ge,
        ve,
        seq![first] + q,
    ) is None by {
        assert((seq![first] + q)[0] == first);
    }
}

/// The link of a node found in the GE tree, whose full names are dotted
/// from `.GE`, leads back to it: the site finds the same node at the link's
/// path, provided every step of the path is a plain name.
pub proof fn lemma_links_lead_back(ge: TableView, ve: TableView, q: Seq<Seq<char>>)
    requires
        ir::names_dotted(ge),
        ge.full_name == ".GE"@,
        ir::lookup(ge, q) is Some,
        forall|i: int| 0 <= i < q.len() ==> plain_step(#[trigger] q[i]),
    ensures
        path_steps(markdown_gen::link_of(node_full_name(ir::lookup(ge, q)->0))) == seq!["GE"@] + q,
        site_lookup(ge, ve, path_steps(markdown_gen::link_of(node_full_name(ir::lookup(ge, q)->0))))
            == ir::lookup(ge, q),
{
    reveal_strlit(".GE");
    reveal_strlit("GE");
    assert(".GE"@ =~= seq!['.'] + "GE"@);
    assert(plain_step("GE"@)) by {
        if "GE"@.contains('.') || "GE"@.contains('/') {
            let k = choose|k: int| 0 <= k < "GE"@.len() && ("GE"@[k] == '.' || "GE"@[k] == '/');
        }
    }
    lemma_link_steps(ge, "GE"@, q);
    lemma_site_paths(ge, ve, q);
}

/// The same for the VE tree, whose full names are dotted from `.VE`: the
/// node's full name is the VE tree's, then the path's steps after dots; its
/// link is `/VE/...`; and the site finds the same node in the VE tree there.
pub proof fn lemma_ve_links_lead_back(ge: TableView, ve: TableView, q: Seq<Seq<char>>)
    requires
        ir::names_dotted(ve),
        ve.full_name == ".VE"@,
        ir::lookup(ve, q) is Some,
        forall|i: int| 0 <= i < q.len() ==> plain_step(#[trigger] q[i]),
    ensures
        node_full_name(ir::lookup(ve, q)->0) == ve.full_name + steps_after(q, '.'),
        path_steps(markdown_gen::link_of(node_full_name(ir::lookup(ve, q)->0))) == seq!["VE"@] + q,
        site_lookup(ge, ve, path_steps(markdown_gen::link_of(node_full_name(ir::lookup(ve, q)->0))))
            == ir::lookup(ve, q),
{
    reveal_strlit(".VE");
    reveal_strlit("VE");
    assert(".VE"@ =~= seq!['.'] + "VE"@);
    assert(plain_step("VE"@)) by {
        if "VE"@.contains('.') || "VE"@.contains('/') {
            let k = choose|k: int| 0 <= k < "VE"@.len() && ("VE"@[k] == '.' || "VE"@[k] == '/');
        }
    }
    lemma_lookup_full_name(ve, q);
    lemma_link_steps(ve, "VE"@, q);
    lemma_site_paths(ge, ve, q);
}

/// The last character of the steps after slashes is that of the last step.
proof fn lemma_last_of_steps(q: Seq<Seq<char>>)
    requires
        q.len() > 0,
        forall|i: int| 0 <= i < q.len() ==> plain_step(#[trigger] q[i]),
    ensures
        steps_after(q, '/').len() > 0,
        steps_after(q, '/').last() != '/',
    decreases q.len(),
{
    let rest = q.drop_first();
    assert(plain_step(q[0]));
    if rest.len() == 0 {
        assert(steps_after(rest, '/') =~= Seq::<char>::empty());
        assert(steps_after(q, '/') =~= seq!['/'] + q[0]);
        assert(q[0].last() != '/') by {
            if q[0].last() == '/' {
                assert(q[0].contains('/'));
            }
        }
    } else {
        assert forall|i: int| 0 <= i < rest.len() implies plain_step(#[trigger] rest[i]) by {
            assert(rest[i] == q[i + 1]);
        }
        lemma_last_of_steps(rest);
        assert(steps_after(q, '/') =~= (seq!['/'] + q[0]) + steps_after(rest, '/'));
    }
}

} // verus!
