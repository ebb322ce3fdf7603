use parser::ir::{Function, Node, Table};
use parser::lookup::{CodeFile, CodeIndex};
use parser::markdown_gen;
use parser::search;
use parser::site::{AppState, Pages};

fn s(x: &str) -> String {
    x.to_string()
}

fn func(full: &str, name: &str, source: &str, first: isize, last: isize) -> Function {
    Function {
        full_name: s(full),
        name: s(name),
        source: s(source),
        func_def: s(""),
        func_def_line: last,
        func_def_start: first,
        callers: vec![],
    }
}

fn code() -> CodeIndex {
    CodeIndex::from_files(vec![
        CodeFile::from_source(s("lua/ge/x.lua"), "-- top\n\n  local function spawn(a)\n  return a\nend\nspawn(1)\n"),
        CodeFile::from_source(s("lua/ge/y.lua"), "a\nx.spawn(2)\nb"),
    ])
}

fn ge() -> Table {
    Table {
        full_name: s(".GE"),
        name: s("GE"),
        children: vec![Table {
            full_name: s(".GE.core"),
            name: s("core"),
            children: vec![],
            functions: vec![],
        }],
        functions: vec![
            func(".GE.spawn", "spawn", "lua/ge/x.lua", 3, 5),
            func(".GE.__index", "__index", "lua/ge/x.lua", 3, 5),
            func(".GE.native", "native", "[C]", -1, -1),
        ],
    }
}

#[test]
fn makes_a_table_page() {
    let md = markdown_gen::gen_table_page_md(
        "{{TABLE_PATH}}|{{TABLE_NAME}}|{{TABLE_FULL_NAME}}\n{{TABLE_CHILDREN}}\n{{TABLE_FUNCTIONS}}",
        vec![s("GE"), s("core")],
        ge(),
        &code(),
    );
    assert_eq!(
        md,
        "<a href=\"/GE\"><code>GE</code></a> / <a href=\"/GE/core\"><code>core</code></a>|GE|.GE\n\
         - [`core`](</GE/core>)\n\
         - [<code class=\"hl\">function spawn(a)</code>](</GE/spawn>)\n\
         - [<code class=\"hl\">function __index(...)</code>](</GE/__index>)\n\
         - [<code class=\"hl\">function native(...)</code>](</GE/native>)"
    );
}

#[test]
fn makes_a_function_page() {
    let mut f = func(".GE.spawn", "spawn", "lua/ge/x.lua", 3, 5);
    f.callers = vec![(s("lua/ge/x.lua"), vec![3, 6]), (s("lua/ge/y.lua"), vec![2]), (s("gone.lua"), vec![0])];
    let md = markdown_gen::gen_function_page_md(
        "{{FUNC_NAME}}|{{FUNC_FULL_NAME}}|{{FUNC_SRC}}|{{FUNC_DEF_LINE}}\n{{FUNC_DEF}}\n{{FUNC_CALLERS}}",
        f,
        &code(),
    );
    let expected = "spawn|.GE.spawn|lua/ge/x.lua|3\n\
<pre><code class=\"highlight-lua\" data-ln-start-from=\"0\">\n-- @/lua/ge/x.lua:3\n-- top\n\n  local function spawn(a)\n  return a\nend\n</code></pre>\n\
<details><summary>@/lua/ge/x.lua</summary>\n\
<pre><code class=\"highlight-lua\" data-ln-start-from=\"5\">end\nspawn(1)</code></pre>\n\
</details>\n\
<details><summary>@/lua/ge/y.lua</summary>\n\
<pre><code class=\"highlight-lua\" data-ln-start-from=\"1\">a\nx.spawn(2)\nb</code></pre>\n\
</details>";
    assert_eq!(md, expected);
}

#[test]
fn picks_the_template_by_kind() {
    let t = markdown_gen::gen_page_md("T {{TABLE_NAME}}", "F {{FUNC_NAME}}", vec![s("GE")], Node::Table(ge()), &code());
    assert_eq!(t, "T GE");
    let f = markdown_gen::gen_page_md(
        "T {{TABLE_NAME}}",
        "F {{FUNC_NAME}}",
        vec![],
        Node::Function(func(".GE.native", "native", "[C]", -1, -1)),
        &code(),
    );
    assert_eq!(f, "F native");
}

fn state() -> AppState {
    AppState::new(
        s("<title>{{TLN}}</title>{{PAGE_CONTENT}}<a href=\"{{URL_PREFIX}}\">"),
        s("http://localhost:3030"),
        ge(),
        Table { full_name: s(".VE"), name: s("VE"), children: vec![], functions: vec![] },
        code(),
        Pages {
            root: s("# Root"),
            search: s("# Search\n{{SEARCH_RESULTS}}"),
            not_found: s("# Missing"),
            table_template: s("# {{TABLE_FULL_NAME}}"),
            function_template: s("# {{FUNC_FULL_NAME}}"),
        },
    )
}

#[test]
fn renders_markdown_into_the_template() {
    let st = state();
    assert_eq!(
        st.template_page("GE", "# Hi *Earth*"),
        "<title>GE</title><h1>Hi <em>Earth</em></h1><a href=\"http://localhost:3030\">"
    );
    assert_eq!(st.get_root(), "<title>BeamNG</title><h1>Root</h1><a href=\"http://localhost:3030\">");
    assert_eq!(st.get_404(), "<title>BeamNG</title><h1>Missing</h1><a href=\"http://localhost:3030\">");
}

#[test]
fn keeps_the_names_for_searching() {
    let st = state();
    assert_eq!(st.all_func_names.len(), 3);
    assert_eq!(st.all_child_names, vec![(s(".GE.core"), s("core"))]);
}

#[test]
fn finds_pages_by_path() {
    let st = state();
    assert!(st.calls_in_range());
    assert!(matches!(st.get_data(vec![s("GE")]), Some(Node::Table(_))));
    assert!(matches!(st.get_data(vec![s("GE"), s("spawn")]), Some(Node::Function(_))));
    assert!(matches!(st.get_data(vec![s("VE")]), Some(Node::Table(_))));
    assert!(st.get_data(vec![s("XX")]).is_none());
    assert!(st.get_data(vec![]).is_none());
    assert_eq!(st.get_page(s("/GE/core/"), None), Some((s("GE"), s("# .GE.core"))));
    assert_eq!(st.get_page(s("GE/spawn"), Some(s("custom {{FUNC_NAME}}"))), Some((s("GE"), s("custom spawn"))));
    assert_eq!(st.get_page(s("GE/none"), None), None);
    assert_eq!(AppState::page_content_path("/GE/core/"), "content/GE/core.md");
}

#[test]
fn makes_the_search_page() {
    let st = state();
    let page = st.get_search_page(&[s(".GE.spawn"), s(".GE.core")]);
    let html = markdown::to_html_with_options(
        "# Search\n- [`.GE.spawn`](</GE/spawn>)\n- [`.GE.core`](</GE/core>)",
        &markdown::Options {
            compile: markdown::CompileOptions {
                allow_dangerous_html: true,
                allow_dangerous_protocol: true,
                ..Default::default()
            },
            ..Default::default()
        },
    )
    .unwrap();
    assert!(html.contains("<a href=\"/GE/spawn\"><code>.GE.spawn</code></a>"));
    assert_eq!(page, format!("<title>BeamNG</title>{}<a href=\"http://localhost:3030\">", html));
}

#[test]
fn flags_call_lines_out_of_range() {
    let mut t = ge();
    t.functions[0].callers = vec![(s("lua/ge/y.lua"), vec![0])];
    assert!(!t.calls_in_range(&code()));
    t.functions[0].callers = vec![(s("unknown.lua"), vec![0])];
    assert!(t.calls_in_range(&code()));
}

#[test]
fn measures_query_distance() {
    assert_eq!(search::edit_distance(b"kitten", b"sitting"), 3);
    assert_eq!(search::edit_distance(b"", b"abc"), 3);
    assert_eq!(search::edit_distance(b"spawn", b"spawn"), 0);
    assert_eq!(search::longest_common_substring(b"xspawny", b"spawner"), 5);
    assert_eq!(search::longest_common_substring(b"", b"abc"), 0);
    assert_eq!(search::common_prefix_len(b"spawnVehicle", b"spawn"), 5);
    assert_eq!(search::common_prefix_len(b"abc", b"xbc"), 0);
}

#[test]
fn ranks_candidates_by_distance() {
    assert_eq!(search::rank_by_distance(&[2, 0, 1, 0, 5, 2], 3, 25), vec![1, 3, 2, 0, 5]);
    assert_eq!(search::rank_by_distance(&[2, 0, 1, 0, 5, 2], 3, 3), vec![1, 3, 2]);
    assert_eq!(search::rank_by_distance(&[4, 3], 3, 25), Vec::<usize>::new());
    assert_eq!(search::rank_by_distance(&[], 3, 25), Vec::<usize>::new());
    assert_eq!(search::rank_by_distance(&[0, 0], 1, 0), Vec::<usize>::new());
}
