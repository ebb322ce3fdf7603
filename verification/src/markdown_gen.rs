//! The markdown of the documentation pages of tables and functions.
use vstd::prelude::*;
use crate::ir::{self, Function, Node, NodeView, Table, TableView, FunctionView};
use crate::lookup::{self, CodeFile, CodeIndex};
use crate::text;

verus! {

broadcast use vstd::string::group_string_axioms;

// ---------------------------------------------------------------------------
// Specifications
// ---------------------------------------------------------------------------

/// The link to a page: the full name with its dots turned into slashes.
pub open spec fn link_of(full_name: Seq<char>) -> Seq<char> {
    text::replace_all(full_name, "."@, "/"@)
}

/// The definition line shown for a function in a list of functions: the
/// definition found near its first line in its source file, or a default.
pub open spec fn inline_def(f: FunctionView, code: Seq<CodeFile>) -> Seq<char> {
    let default = "function "@ + f.name + "(...)"@;
    let def = if f.name == "__index"@ || f.name == "__newindex"@ {
        default
    } else {
        match lookup::file_at(code, f.source) {
            Some(cf) => if f.func_def_start > 0 {
                match lookup::func_def_from(text::views(cf.content@), f.func_def_start - 1, 5) {
                    Some(d) => d,
                    None => default,
                }
            } else {
                default
            },
            None => default,
        }
    };
    text::trim_start(def)
}

/// The list entry of a function on a table page.
pub open spec fn function_item(f: FunctionView, code: Seq<CodeFile>) -> Seq<char> {
    "- [<code class=\"hl\">"@ + inline_def(f, code) + "</code>](<"@ + link_of(f.full_name) + ">)"@
}

/// The list entry of a nested table on a table page.
pub open spec fn child_item(t: TableView) -> Seq<char> {
    "- [`"@ + t.name + "`](<"@ + link_of(t.full_name) + ">)"@
}

/// The link of step `i` of the path to a table.
pub open spec fn path_step(full_path: Seq<Seq<char>>, i: int) -> Seq<char> {
    "<a href=\"/"@ + text::join(full_path.take(i + 1), "/"@) + "\"><code>"@ + full_path[i]
        + "</code></a>"@
}

/// The path to a table, each step a link to its page.
pub open spec fn table_path(full_path: Seq<Seq<char>>) -> Seq<char> {
    text::join(Seq::new(full_path.len(), |i: int| path_step(full_path, i)), " / "@)
}

/// The markdown of a table page: the template with its placeholders filled.
pub open spec fn table_page(
    template: Seq<char>,
    full_path: Seq<Seq<char>>,
    t: TableView,
    code: Seq<CodeFile>,
) -> Seq<char> {
    let children = text::join(Seq::new(t.children.len(), |i: int| child_item(t.children[i])), "\n"@);
    let functions = text::join(
        Seq::new(t.functions.len(), |i: int| function_item(t.functions[i], code)),
        "\n"@,
    );
    text::replace_all(
        text::replace_all(
            text::replace_all(
                text::replace_all(
                    text::replace_all(template, "{{TABLE_PATH}}"@, table_path(full_path)),
                    "{{TABLE_NAME}}"@,
                    t.name,
                ),
                "{{TABLE_FULL_NAME}}"@,
                t.full_name,
            ),
            "{{TABLE_CHILDREN}}"@,
            children,
        ),
        "{{TABLE_FUNCTIONS}}"@,
        functions,
    )
}

/// The definition of a function with the comments above it, and the number
/// of comment lines, as shown on its page.
pub open spec fn def_code(f: FunctionView, code: Seq<CodeFile>) -> (Seq<char>, int) {
    match lookup::file_at(code, f.source) {
        Some(cf) => if f.func_def_start >= 0 {
            let c = text::views(cf.content@);
            let start = (f.func_def_start as usize) as int;
            let end = (f.func_def_line as usize) as int;
            let lo = if start >= 1 { start - 1 } else { 0 };
            let hi = if end <= c.len() { end } else { c.len() as int };
            if lo >= hi {
                (seq![], 0)
            } else {
                let first = lookup::comment_start(c, lo);
                (text::join(c.subrange(first, hi), "\n"@), lo - first)
            }
        } else {
            ("function "@ + f.name + "(...)"@, 0)
        },
        None => ("function "@ + f.name + "(...)"@, 0),
    }
}

/// The block with the definition of a function.
pub open spec fn def_block(f: FunctionView, code: Seq<CodeFile>) -> Seq<char> {
    let (dc, offset) = def_code(f, code);
    let l0 = if f.func_def_start > 0 { f.func_def_start } else { 0 };
    let start = if l0 >= offset + 2 { l0 - (offset + 2) } else { 0 };
    "<pre><code class=\"highlight-lua\" data-ln-start-from=\""@ + text::decimal(start as nat)
        + "\">\n-- @/"@ + f.source + ":"@ + text::int_decimal(f.func_def_start) + "\n"@ + dc
        + "\n</code></pre>"@
}

/// The call at line `i` of `src` is the definition of `f` itself.
pub open spec fn is_own_def(f: FunctionView, src: Seq<char>, i: int) -> bool {
    src == f.source && ((i as usize) as isize) as int == f.func_def_start
}

/// The blocks of the calls in `lines` of the file `cf`, the definition itself
/// left out.
pub open spec fn call_blocks(f: FunctionView, src: Seq<char>, lines: Seq<int>, cf: CodeFile) -> Seq<Seq<char>>
    decreases lines.len(),
{
    if lines.len() == 0 {
        seq![]
    } else {
        let prev = call_blocks(f, src, lines.drop_last(), cf);
        let i = lines.last();
        if is_own_def(f, src, i) {
            prev
        } else {
            let call_code = text::join(lookup::section(text::views(cf.content@), i - 1, i + 1), "\n"@);
            prev.push(
                "<pre><code class=\"highlight-lua\" data-ln-start-from=\""@ + text::decimal((i - 1) as nat)
                    + "\">"@ + call_code + "</code></pre>"@,
            )
        }
    }
}

/// The sections of a function page that show its callers, one for each file
/// that calls it and is known.
pub open spec fn caller_sections(f: FunctionView, callers: Seq<(Seq<char>, Seq<int>)>, code: Seq<CodeFile>) -> Seq<
    Seq<char>,
>
    decreases callers.len(),
{
    if callers.len() == 0 {
        seq![]
    } else {
        let prev = caller_sections(f, callers.drop_last(), code);
        let (src, lines) = callers.last();
        match lookup::file_at(code, src) {
            Some(cf) => {
                let blocks = call_blocks(f, src, lines, cf);
                if blocks.len() > 0 {
                    prev.push(
                        text::join(
                            seq!["<details><summary>@/"@ + src + "</summary>"@] + blocks + seq![
                                "</details>"@,
                            ],
                            "\n"@,
                        ),
                    )
                } else {
                    prev
                }
            },
            None => prev,
        }
    }
}

/// Every call line of `f` that its page shows lies in `1..usize::MAX`.
pub open spec fn caller_lines_in_range(f: FunctionView, code: Seq<CodeFile>) -> bool {
    forall|k: int, m: int|
        0 <= k < f.callers.len() && 0 <= m < f.callers[k].1.len() && lookup::file_at(
            code,
            f.callers[k].0,
        ) is Some && !is_own_def(f, f.callers[k].0, f.callers[k].1[m]) ==> 1 <= #[trigger] f.callers[k].1[m]
            < usize::MAX
}

/// The markdown of a function page: the template with its placeholders
/// filled.
pub open spec fn function_page(template: Seq<char>, f: FunctionView, code: Seq<CodeFile>) -> Seq<char> {
    let callers = text::join(caller_sections(f, f.callers, code), "\n"@);
    text::replace_all(
        text::replace_all(
            text::replace_all(
                text::replace_all(
                    text::replace_all(
                        text::replace_all(template, "{{FUNC_NAME}}"@, f.name),
                        "{{FUNC_FULL_NAME}}"@,
                        f.full_name,
                    ),
                    "{{FUNC_SRC}}"@,
                    f.source,
                ),
                "{{FUNC_DEF}}"@,
                def_block(f, code),
            ),
            "{{FUNC_DEF_LINE}}"@,
            text::int_decimal(f.func_def_start),
        ),
        "{{FUNC_CALLERS}}"@,
        callers,
    )
}

/// The markdown of the page of a table or a function.
pub open spec fn page(template: Seq<char>, full_path: Seq<Seq<char>>, node: NodeView, code: Seq<CodeFile>) -> Seq<
    char,
> {
    match node {
        NodeView::Table(t) => table_page(template, full_path, t, code),
        NodeView::Function(f) => function_page(template, f, code),
    }
}

/// What a page of `node` needs to be generated: the call lines shown lie in
/// range.
pub open spec fn page_ok(node: NodeView, code: Seq<CodeFile>) -> bool {
    match node {
        NodeView::Table(_) => true,
        NodeView::Function(f) => caller_lines_in_range(f, code),
    }
}


// ---------------------------------------------------------------------------
// Generation
// ---------------------------------------------------------------------------

/// The link to the page of the table or function with this full name.
pub fn link_to(full_name: &str) -> (r: String)
    ensures
        r@ == link_of(full_name@),
{
    proof {
        reveal_strlit(".");
    }
    text::replace_str(full_name, ".", "/")
}

/// The list entry of a function on a table page.
fn func_inline_md(func: &Function, code: &CodeIndex) -> (r: String)
    ensures
        r@ == function_item(func@, code.files@),
{
    let link = link_to(func.full_name.as_str());
    let mut default = text::owned("function ");
    text::push_str(&mut default, func.name.as_str());
    text::push_str(&mut default, "(...)");
    let name_v = text::to_chars(func.name.as_str());
    let special = text::chars_eq(&name_v, &text::to_chars("__index")) || text::chars_eq(
        &name_v,
        &text::to_chars("__newindex"),
    );
    let def = if special {
        default
    } else {
        proof {
            lookup::lemma_find_file(code.files@, func.source@);
        }
        match code.get(func.source.as_str()) {
            Some(cf) => if func.func_def_start > 0 {
                let line = (func.func_def_start as usize) - 1;
                match cf.get_func_def(line) {
                    Some(d) => d,
                    None => default,
                }
            } else {
                default
            },
            None => default,
        }
    };
    let def = text::trim_start_str(def.as_str());
    let mut r = text::owned("- [<code class=\"hl\">");
    text::push_str(&mut r, def.as_str());
    text::push_str(&mut r, "</code>](<");
    text::push_str(&mut r, link.as_str());
    text::push_str(&mut r, ">)");
    r
}

/// The path to a table, each step a link to its page.
pub fn table_path_md(full_path: &Vec<String>) -> (r: String)
    ensures
        r@ == table_path(text::views(full_path@)),
{
    let ghost fp = text::views(full_path@);
    let mut link_builder: Vec<String> = Vec::new();
    let mut items: Vec<String> = Vec::new();
    let mut i: usize = 0;
    while i < full_path.len()
        invariant
            i <= full_path@.len(),
            fp == text::views(full_path@),
            text::views(link_builder@) == fp.take(i as int),
            items@.len() == i,
            forall|j: int| 0 <= j < i ==> (#[trigger] items@[j])@ == path_step(fp, j),
        decreases full_path@.len() - i,
    {
        let ghost before = text::views(link_builder@);
        let c = full_path[i].clone();
        link_builder.push(c);
        assert(text::views(link_builder@) =~= before.push(fp[i as int]));
        assert(fp.take(i + 1) =~= fp.take(i as int).push(fp[i as int]));
        let link = text::join_strings(&link_builder, "/");
        let mut item = text::owned("<a href=\"/");
        text::push_str(&mut item, link.as_str());
        text::push_str(&mut item, "\"><code>");
        text::push_str(&mut item, full_path[i].as_str());
        text::push_str(&mut item, "</code></a>");
        items.push(item);
        i = i + 1;
    }
    let r = text::join_strings(&items, " / ");
    assert(text::views(items@) =~= Seq::new(fp.len(), |j: int| path_step(fp, j)));
    r
}

/// Replaces every `{{...}}` placeholder `pat` of `s` by `rep`.
fn fill(s: String, pat: &str, rep: &str) -> (r: String)
    requires
        pat@.len() > 0,
    ensures
        r@ == text::replace_all(s@, pat@, rep@),
{
    text::replace_str(s.as_str(), pat, rep)
}

/// The markdown of a table page: the template with its placeholders
/// filled: the path to the table, its name and full name, and the lists of
/// its nested tables and of its functions.
pub fn gen_table_page_md(template: &str, full_path: Vec<String>, table: Table, code: &CodeIndex) -> (r:
    String)
    ensures
        r@ == table_page(template@, text::views(full_path@), table@, code.files@),
{
    proof {
        ir::lemma_table_view(table);
    }
    let ghost tv = table@;
    let tp = table_path_md(&full_path);
    let mut children_content: Vec<String> = Vec::new();
    let mut i: usize = 0;
    while i < table.children.len()
        invariant
            i <= table.children@.len(),
            tv == table@,
            tv.children.len() == table.children@.len(),
            forall|j: int| 0 <= j < tv.children.len() ==> tv.children[j] == #[trigger] table.children@[j]@,
            children_content@.len() == i,
            forall|j: int| 0 <= j < i ==> (#[trigger] children_content@[j])@ == child_item(tv.children[j]),
        decreases table.children@.len() - i,
    {
        proof {
            ir::lemma_table_view(table.children@[i as int]);
        }
        let link = link_to(table.children[i].full_name.as_str());
        let mut item = text::owned("- [`");
        text::push_str(&mut item, table.children[i].name.as_str());
        text::push_str(&mut item, "`](<");
        text::push_str(&mut item, link.as_str());
        text::push_str(&mut item, ">)");
        children_content.push(item);
        i = i + 1;
    }
    let mut functions_content: Vec<String> = Vec::new();
    let mut k: usize = 0;
    while k < table.functions.len()
        invariant
            k <= table.functions@.len(),
            tv == table@,
            tv.functions == ir::function_views(table.functions@),
            functions_content@.len() == k,
            forall|j: int|
                0 <= j < k ==> (#[trigger] functions_content@[j])@ == function_item(
                    tv.functions[j],
                    code.files@,
                ),
        decreases table.functions@.len() - k,
    {
        let s = func_inline_md(&table.functions[k], code);
        functions_content.push(s);
        k = k + 1;
    }
    assert(text::views(children_content@) =~= Seq::new(
        tv.children.len(),
        |j: int| child_item(tv.children[j]),
    ));
    assert(text::views(functions_content@) =~= Seq::new(
        tv.functions.len(),
        |j: int| function_item(tv.functions[j], code.files@),
    ));
    let children = text::join_strings(&children_content, "\n");
    let functions = text::join_strings(&functions_content, "\n");
    proof {
        reveal_strlit("{{TABLE_PATH}}");
        reveal_strlit("{{TABLE_NAME}}");
        reveal_strlit("{{TABLE_FULL_NAME}}");
        reveal_strlit("{{TABLE_CHILDREN}}");
        reveal_strlit("{{TABLE_FUNCTIONS}}");
    }
    let r = fill(text::owned(template), "{{TABLE_PATH}}", tp.as_str());
    let r = fill(r, "{{TABLE_NAME}}", table.name.as_str());
    let r = fill(r, "{{TABLE_FULL_NAME}}", table.full_name.as_str());
    let r = fill(r, "{{TABLE_CHILDREN}}", children.as_str());
    let r = fill(r, "{{TABLE_FUNCTIONS}}", functions.as_str());
    r
}


/// The definition of a function with the comments above it, and the number
/// of comment lines (see `def_code`).
fn func_def_code(func: &Function, code: &CodeIndex) -> (r: (String, usize))
    ensures
        (r.0@, r.1 as int) == def_code(func@, code.files@),
{
    proof {
        lookup::lemma_find_file(code.files@, func.source@);
    }
    let mut default = text::owned("function ");
    text::push_str(&mut default, func.name.as_str());
    text::push_str(&mut default, "(...)");
    match code.get(func.source.as_str()) {
        Some(cf) => {
            if func.func_def_start >= 0 {
                let (fd, offset) = cf.get_func_decl_with_comments(
                    func.func_def_start as usize,
                    func.func_def_line as usize,
                );
                let joined = text::join_strings(&fd, "\n");
                proof {
                    if fd@.len() == 0 {
                        assert(text::views(fd@) =~= Seq::<Seq<char>>::empty());
                    }
                }
                (joined, offset)
            } else {
                (default, 0)
            }
        },
        None => (default, 0),
    }
}

/// The blocks of the calls of `func` in the lines `lines` of `cf` at `src`
/// (see `call_blocks`).
fn call_blocks_md(func: &Function, src: &String, lines: &Vec<usize>, cf: &CodeFile) -> (r: Vec<String>)
    requires
        forall|m: int|
            0 <= m < lines@.len() && !is_own_def(func@, src@, lines@[m] as int) ==> 1 <= #[trigger] lines@[m]
                < usize::MAX,
    ensures
        text::views(r@) == call_blocks(func@, src@, text::ints(lines@), *cf),
{
    let ghost li = text::ints(lines@);
    let mut out: Vec<String> = Vec::new();
    let mut m: usize = 0;
    assert(li.take(0) =~= Seq::<int>::empty());
    while m < lines.len()
        invariant
            m <= lines@.len(),
            li == text::ints(lines@),
            forall|q: int|
                0 <= q < lines@.len() && !is_own_def(func@, src@, lines@[q] as int) ==> 1
                    <= #[trigger] lines@[q] < usize::MAX,
            text::views(out@) == call_blocks(func@, src@, li.take(m as int), *cf),
        decreases lines@.len() - m,
    {
        let i = lines[m];
        assert(li.take(m + 1).drop_last() =~= li.take(m as int));
        assert(li.take(m + 1).last() == i as int);
        if *src == func.source && (i as isize) == func.func_def_start {
            assert(is_own_def(func@, src@, i as int));
        } else {
            assert(!is_own_def(func@, src@, i as int));
            let section = cf.get_section(i - 1, i + 1);
            let call_code = text::join_strings(&section, "\n");
            let mut block = text::owned("<pre><code class=\"highlight-lua\" data-ln-start-from=\"");
            text::push_str(&mut block, text::usize_decimal(i - 1).as_str());
            text::push_str(&mut block, "\">");
            text::push_str(&mut block, call_code.as_str());
            text::push_str(&mut block, "</code></pre>");
            let ghost before = text::views(out@);
            out.push(block);
            assert(text::views(out@) =~= before.push(block@));
        }
        m = m + 1;
    }
    assert(li.take(lines@.len() as int) =~= li);
    out
}

/// The sections of a function page that show its callers (see
/// `caller_sections`).
fn caller_sections_md(func: &Function, code: &CodeIndex) -> (r: Vec<String>)
    requires
        caller_lines_in_range(func@, code.files@),
    ensures
        text::views(r@) == caller_sections(func@, func@.callers, code.files@),
{
    let ghost cs = func@.callers;
    let mut out: Vec<String> = Vec::new();
    let mut k: usize = 0;
    assert(cs.take(0) =~= Seq::<(Seq<char>, Seq<int>)>::empty());
    while k < func.callers.len()
        invariant
            k <= func.callers@.len(),
            cs == func@.callers,
            cs.len() == func.callers@.len(),
            caller_lines_in_range(func@, code.files@),
            text::views(out@) == caller_sections(func@, cs.take(k as int), code.files@),
        decreases func.callers@.len() - k,
    {
        let src = &func.callers[k].0;
        let lines = &func.callers[k].1;
        assert(cs[k as int] == (src@, text::ints(lines@)));
        assert(cs.take(k + 1).drop_last() =~= cs.take(k as int));
        assert(cs.take(k + 1).last() == cs[k as int]);
        proof {
            lookup::lemma_find_file(code.files@, src@);
        }
        match code.get(src.as_str()) {
            Some(cf) => {
                assert forall|m: int|
                    0 <= m < lines@.len() && !is_own_def(func@, src@, lines@[m] as int) implies 1
                    <= #[trigger] lines@[m] < usize::MAX by {
                    assert(cs[k as int].1[m] == lines@[m] as int);
                }
                let blocks = call_blocks_md(func, src, lines, cf);
                if blocks.len() > 0 {
                    let mut s: Vec<String> = Vec::new();
                    let mut head = text::owned("<details><summary>@/");
                    text::push_str(&mut head, src.as_str());
                    text::push_str(&mut head, "</summary>");
                    s.push(head);
                    let mut b: usize = 0;
                    while b < blocks.len()
                        invariant
                            b <= blocks@.len(),
                            s@.len() == b + 1,
                            s@[0]@ == "<details><summary>@/"@ + src@ + "</summary>"@,
                            forall|q: int| 0 <= q < b ==> (#[trigger] s@[q + 1])@ == blocks@[q]@,
                        decreases blocks@.len() - b,
                    {
                        s.push(blocks[b].clone());
                        b = b + 1;
                    }
                    let ghost mid = s@;
                    s.push(text::owned("</details>"));
                    let ghost expect = seq!["<details><summary>@/"@ + src@ + "</summary>"@]
                        + text::views(blocks@) + seq!["</details>"@];
                    assert forall|q: int| 0 <= q < expect.len() implies text::views(s@)[q] == expect[q] by {
                        if q == 0 {
                        } else if q <= blocks@.len() {
                            assert(s@[q] == mid[q]);
                            assert(mid[(q - 1) + 1]@ == blocks@[q - 1]@);
                        }
                    }
                    assert(text::views(s@) =~= seq!["<details><summary>@/"@ + src@ + "</summary>"@]
                        + text::views(blocks@) + seq!["</details>"@]);
                    let section = text::join_strings(&s, "\n");
                    let ghost before = text::views(out@);
                    out.push(section);
                    assert(text::views(out@) =~= before.push(section@));
                }
            },
            None => {},
        }
        k = k + 1;
    }
    assert(cs.take(k as int) =~= cs);
    out
}

/// The markdown of a function page: the template with its placeholders
/// filled: the name, full name and source of the function, its definition
/// with the comments above it, its first line, and its callers.
pub fn gen_function_page_md(func_template: &str, function: Function, code: &CodeIndex) -> (r: String)
    requires
        caller_lines_in_range(function@, code.files@),
    ensures
        r@ == function_page(func_template@, function@, code.files@),
{
    let (dc, offset) = func_def_code(&function, code);
    let l0: usize = if function.func_def_start > 0 { function.func_def_start as usize } else { 0 };
    let start: usize = if l0 >= 2 && l0 - 2 >= offset { l0 - 2 - offset } else { 0 };
    let mut def = text::owned("<pre><code class=\"highlight-lua\" data-ln-start-from=\"");
    text::push_str(&mut def, text::usize_decimal(start).as_str());
    text::push_str(&mut def, "\">\n-- @/");
    text::push_str(&mut def, function.source.as_str());
    text::push_str(&mut def, ":");
    text::push_str(&mut def, text::isize_decimal(function.func_def_start).as_str());
    text::push_str(&mut def, "\n");
    text::push_str(&mut def, dc.as_str());
    text::push_str(&mut def, "\n</code></pre>");
    let sections = caller_sections_md(&function, code);
    let callers = text::join_strings(&sections, "\n");
    proof {
        reveal_strlit("{{FUNC_NAME}}");
        reveal_strlit("{{FUNC_FULL_NAME}}");
        reveal_strlit("{{FUNC_SRC}}");
        reveal_strlit("{{FUNC_DEF}}");
        reveal_strlit("{{FUNC_DEF_LINE}}");
        reveal_strlit("{{FUNC_CALLERS}}");
    }
    let r = fill(text::owned(func_template), "{{FUNC_NAME}}", function.name.as_str());
    let r = fill(r, "{{FUNC_FULL_NAME}}", function.full_name.as_str());
    let r = fill(r, "{{FUNC_SRC}}", function.source.as_str());
    let r = fill(r, "{{FUNC_DEF}}", def.as_str());
    let r = fill(r, "{{FUNC_DEF_LINE}}", text::isize_decimal(function.func_def_start).as_str());
    let r = fill(r, "{{FUNC_CALLERS}}", callers.as_str());
    r
}

/// The markdown of the page of a table or a function, from `template`.
pub fn gen_page_md_template(template: &str, full_path: Vec<String>, node: Node, code: &CodeIndex) -> (r:
    String)
    requires
        page_ok(node@, code.files@),
    ensures
        r@ == page(template@, text::views(full_path@), node@, code.files@),
{
    match node {
        Node::Table(t) => gen_table_page_md(template, full_path, t, code),
        Node::Function(f) => gen_function_page_md(template, f, code),
    }
}

/// The markdown of the page of a table or a function, from the template for
/// its kind.
pub fn gen_page_md(
    table_template: &str,
    func_template: &str,
    full_path: Vec<String>,
    node: Node,
    code: &CodeIndex,
) -> (r: String)
    requires
        page_ok(node@, code.files@),
    ensures
        r@ == page(
            match node@ {
                NodeView::Table(_) => table_template@,
                NodeView::Function(_) => func_template@,
            },
            text::views(full_path@),
            node@,
            code.files@,
        ),
{
    match node {
        Node::Table(_) => gen_page_md_template(table_template, full_path, node, code),
        Node::Function(_) => gen_page_md_template(func_template, full_path, node, code),
    }
}


// ---------------------------------------------------------------------------
// Functions whose source is not at hand
// ---------------------------------------------------------------------------

/// Where the function's source file is not among the files, or its first
/// line is not known (a function of the engine), its page shows the
/// definition `function <name>(...)`: the definition block ends with that
/// line, and the comment count is 0.
pub proof fn lemma_def_without_source(f: FunctionView, code: Seq<CodeFile>)
    requires
        lookup::file_at(code, f.source) is None || f.func_def_start < 0,
    ensures
        def_code(f, code) == ("function "@ + f.name + "(...)"@, 0int),
        ({
            let d = "\nfunction "@ + f.name + "(...)\n</code></pre>"@;
            def_block(f, code).len() >= d.len() && def_block(f, code).skip(def_block(f, code).len() - d.len()) == d
        }),
{
    reveal_strlit("\nfunction ");
    reveal_strlit("function ");
    reveal_strlit("(...)\n</code></pre>");
    reveal_strlit("(...)");
    reveal_strlit("\n</code></pre>");
    reveal_strlit("\n");
    let dc = "function "@ + f.name + "(...)"@;
    let (c, offset) = def_code(f, code);
    assert(c == dc);
    let l0 = if f.func_def_start > 0 { f.func_def_start } else { 0 };
    let start = if l0 >= offset + 2 { l0 - (offset + 2) } else { 0 };
    let head = "<pre><code class=\"highlight-lua\" data-ln-start-from=\""@ + text::decimal(start as nat)
        + "\">\n-- @/"@ + f.source + ":"@ + text::int_decimal(f.func_def_start);
    let d = "\nfunction "@ + f.name + "(...)\n</code></pre>"@;
    assert(def_block(f, code) =~= head + d);
    assert((head + d).skip(head.len() as int) =~= d);
}

/// Where the function's source file is not among the files, its entry on a
/// table page shows `function <name>(...)`.
pub proof fn lemma_inline_def_without_source(f: FunctionView, code: Seq<CodeFile>)
    requires
        lookup::file_at(code, f.source) is None,
    ensures
        inline_def(f, code) == "function "@ + f.name + "(...)"@,
{
    reveal_strlit("function ");
    let d = "function "@ + f.name + "(...)"@;
    assert(d[0] == 'f');
    assert(!text::is_whitespace('f'));
}

} // verus!
