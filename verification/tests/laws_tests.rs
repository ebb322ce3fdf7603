use parser::data;
use parser::ir::{Node, SourceRead, SourceReads, Table};
use parser::lookup::{self, CodeFile, CodeIndex};
use parser::markdown_gen;
use parser::site::{AppState, Pages};
use std::collections::VecDeque;

fn s(x: &str) -> String {
    x.to_string()
}

fn dfun(name: &str) -> data::Node {
    data::Node::Function(data::Function {
        docs_name: s(name),
        source: s("[C]"),
        linedefined: -1,
        lastlinedefined: -1,
    })
}

fn dtab(name: &str, params: Vec<(&str, data::Node)>) -> data::Table {
    data::Table {
        docs_name: s(name),
        params: params.into_iter().map(|(k, v)| (s(k), v)).collect(),
    }
}

fn dump() -> data::Table {
    dtab(
        "GE",
        vec![
            ("zeta", dfun("zeta")),
            ("Alpha", dfun("Alpha")),
            (
                "core",
                data::Node::Table(dtab(
                    "core",
                    vec![("spawn", dfun("spawn")), ("Board", data::Node::Table(dtab("Board", vec![("reset", dfun("reset"))])))],
                )),
            ),
            ("base", data::Node::Table(dtab("base", vec![]))),
        ],
    )
}

fn built() -> Table {
    Table::from_data_table("", "", dump(), &SourceReads { reads: Vec::<SourceRead>::new() })
}

fn check_dotted(t: &Table) {
    for f in &t.functions {
        assert_eq!(f.full_name, format!("{}.{}", t.full_name, f.name));
    }
    for c in &t.children {
        assert_eq!(c.full_name, format!("{}.{}", t.full_name, c.name));
        check_dotted(c);
    }
}

fn path(steps: &[&str]) -> VecDeque<String> {
    steps.iter().map(|x| s(x)).collect()
}

#[test]
fn built_tree_has_dotted_full_names() {
    let t = built();
    assert_eq!(t.full_name, ".GE");
    check_dotted(&t);
    assert_eq!(t.children[0].children[0].functions[0].full_name, ".GE.core.Board.reset");
}

#[test]
fn sorting_keeps_full_names_dotted() {
    let mut t = built();
    t.sort_alphanumerical();
    check_dotted(&t);
    let names: Vec<&str> = t.functions.iter().map(|f| f.name.as_str()).collect();
    assert_eq!(names, vec!["Alpha", "zeta"]);
    let names: Vec<&str> = t.children.iter().map(|c| c.name.as_str()).collect();
    assert_eq!(names, vec!["base", "core"]);
}

#[test]
fn a_path_finds_the_node_named_by_its_last_step() {
    let t = built();
    for steps in [vec!["zeta"], vec!["core"], vec!["core", "spawn"], vec!["core", "Board", "reset"]] {
        let node = t.get_data(path(&steps)).expect("the path names a node");
        assert_eq!(node.name(), *steps.last().unwrap());
    }
    assert!(t.get_data(path(&["core", "missing"])).is_none());
    assert!(t.get_data(path(&[])).is_none());
}

#[test]
fn recording_calls_changes_no_name() {
    let mut t = built();
    let before = t.get_all_function_names();
    let children = t.get_all_children_names();
    assert!(t.set_calls_by_full_name(".GE.core.spawn", &vec![(s("a.lua"), vec![3])]));
    assert!(!t.set_calls_by_full_name(".GE.nothing", &vec![(s("a.lua"), vec![3])]));
    assert_eq!(t.get_all_function_names(), before);
    assert_eq!(t.get_all_children_names(), children);
}

#[test]
fn looking_up_callers_changes_no_name() {
    let mut t = built();
    let before = t.get_all_function_names();
    let files = vec![CodeFile::from_source(s("a.lua"), "spawn()\nreset (1)\n")];
    let index = lookup::look_up_src_info(&mut t, files);
    assert_eq!(t.get_all_function_names(), before);
    assert!(index.get("a.lua").is_some());
    let spawn = &t.children[0].functions[0];
    assert_eq!(spawn.callers, vec![(s("a.lua"), vec![1])]);
    let reset = &t.children[0].children[0].functions[0];
    assert_eq!(reset.callers, vec![(s("a.lua"), vec![2])]);
}

#[test]
fn an_index_gives_the_file_put_in_last() {
    let mut index = CodeIndex::new();
    index.insert(CodeFile::from_source(s("a.lua"), "first"));
    index.insert(CodeFile::from_source(s("b.lua"), "other"));
    index.insert(CodeFile::from_source(s("a.lua"), "second"));
    assert_eq!(index.get("a.lua").unwrap().content, vec![s("second")]);
    assert_eq!(index.get("b.lua").unwrap().content, vec![s("other")]);
    assert!(index.get("c.lua").is_none());
}

fn state() -> AppState {
    let mut ge = built();
    ge.sort_alphanumerical();
    AppState::new(
        s("[{{TLN}}]{{PAGE_CONTENT}}({{URL_PREFIX}})"),
        s("http://x"),
        ge,
        Table { full_name: s(".VE"), name: s("VE"), children: vec![], functions: vec![] },
        CodeIndex::new(),
        Pages {
            root: s(""),
            search: s(""),
            not_found: s(""),
            table_template: s("{{TABLE_FULL_NAME}}"),
            function_template: s("{{FUNC_FULL_NAME}}"),
        },
    )
}

#[test]
fn links_lead_back_to_their_nodes() {
    let st = state();
    for full in [".GE.zeta", ".GE.core", ".GE.core.spawn", ".GE.core.Board.reset"] {
        let link = markdown_gen::link_to(full);
        assert_eq!(link, full.replace('.', "/"));
        let steps: Vec<String> = link.trim_matches('/').split('/').map(|x| s(x)).collect();
        let node = st.get_data(steps).expect("the link names a node");
        let found = match node {
            Node::Table(t) => t.full_name,
            Node::Function(f) => f.full_name,
        };
        assert_eq!(found, full);
        let page = st.get_page(link, None).expect("the link has a page");
        assert_eq!(page, (s("GE"), s(full)));
    }
}

#[test]
fn fills_the_html_template() {
    let st = state();
    assert_eq!(st.fill_html_template("GE", "<p>{{TLN}}</p>"), "[GE]<p>{{TLN}}</p>(http://x)");
    assert_eq!(st.fill_html_template("VE", ""), "[VE](http://x)");
}
