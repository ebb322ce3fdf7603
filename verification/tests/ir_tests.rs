use parser::data;
use parser::ir::{Function, Node, ReadError, SourceRead, SourceReads, Table};
use std::collections::VecDeque;

fn s(x: &str) -> String {
    x.to_string()
}

fn dfun(name: &str, source: &str, first: isize, last: isize) -> data::Node {
    data::Node::Function(data::Function {
        docs_name: s(name),
        source: s(source),
        linedefined: first,
        lastlinedefined: last,
    })
}

fn dtab(name: &str, params: Vec<(&str, data::Node)>) -> data::Table {
    data::Table {
        docs_name: s(name),
        params: params.into_iter().map(|(k, v)| (s(k), v)).collect(),
    }
}

fn sample_dump() -> data::Table {
    dtab(
        "GE",
        vec![
            ("spawn", dfun("spawn", "@/lua/ge/spawn.lua", 2, 4)),
            ("print", dfun("print", "[C]", -1, -1)),
            ("version", data::Node::Value(data::Value { docs_name: s("version"), v: s("0.32") })),
            (
                "core",
                data::Node::Table(dtab(
                    "core",
                    vec![
                        ("gone", dfun("gone", "@missing.lua", 3, 5)),
                        ("short", dfun("short", "@/short.lua", 10, 12)),
                        ("up", data::Node::Cycle(data::Cycle { docs_name: s("up"), name: s("GE") })),
                    ],
                )),
            ),
            ("misc", data::Node::Other(data::Other { docs_name: s("misc"), kind: s("userdata") })),
        ],
    )
}

fn sample_reads() -> SourceReads {
    SourceReads {
        reads: vec![
            SourceRead {
                path: s("G/lua/ge/spawn.lua"),
                result: Ok(s("-- spawns\nfunction M.spawn(a)\n  return a\nend\n")),
            },
            SourceRead { path: s("G/missing.lua"), result: Err(ReadError::NotFound) },
            SourceRead { path: s("G/short.lua"), result: Ok(s("one line")) },
        ],
    }
}

fn sample_table() -> Table {
    Table::from_data_table("G/", "", sample_dump(), &sample_reads())
}

#[test]
fn lists_the_source_files_to_read() {
    let paths = parser::ir::source_paths("G/", &sample_dump());
    assert_eq!(paths, vec![s("G/lua/ge/spawn.lua"), s("G/missing.lua"), s("G/short.lua")]);
}

#[test]
fn builds_the_tree_from_the_dump() {
    let t = sample_table();
    assert_eq!(t.full_name, ".GE");
    assert_eq!(t.name, "GE");
    assert_eq!(t.functions.len(), 2);
    assert_eq!(t.children.len(), 1);
    let spawn = &t.functions[0];
    assert_eq!(spawn.full_name, ".GE.spawn");
    assert_eq!(spawn.source, "lua/ge/spawn.lua");
    assert_eq!(spawn.func_def, "function M.spawn(a)");
    assert_eq!(spawn.func_def_line, 4);
    assert_eq!(spawn.func_def_start, 2);
    assert!(spawn.callers.is_empty());
    let print = &t.functions[1];
    assert_eq!(print.func_def, "function print(...)");
    let core = &t.children[0];
    assert_eq!(core.full_name, ".GE.core");
    assert_eq!(core.functions[0].full_name, ".GE.core.gone");
    assert_eq!(core.functions[0].source, "missing.lua");
    assert_eq!(
        core.functions[0].func_def,
        "function gone(...) -- (err reading file: source file not found)"
    );
    assert_eq!(
        core.functions[1].func_def,
        "function short(...) -- (err reading file: could not find function definition line 10 in G/short.lua)"
    );
}

#[test]
fn shows_each_read_error() {
    let cases = [
        (ReadError::NotFound, "source file not found"),
        (ReadError::PermissionDenied, "permission denied reading"),
        (ReadError::InvalidData(s("stream did not contain valid UTF-8")), "stream did not contain valid UTF-8"),
        (ReadError::UnexpectedEof, "unexpected eof"),
        (ReadError::Other(s("Is a directory (os error 21)")), "failed to read Is a directory (os error 21)"),
    ];
    for (e, m) in cases {
        assert_eq!(e.message(), m);
        let def = parser::ir::def_line_from_read("f", 1, "p", &Err(e));
        assert_eq!(def, format!("function f(...) -- (err reading file: {})", m));
    }
}

#[test]
fn reads_the_first_line_of_a_definition() {
    let content: Result<String, ReadError> = Ok(s("a\r\nb\nc"));
    assert_eq!(parser::ir::def_line_from_read("f", 1, "p", &content), "a");
    assert_eq!(parser::ir::def_line_from_read("f", 3, "p", &content), "c");
    assert_eq!(
        parser::ir::def_line_from_read("f", 0, "p", &content),
        "function f(...) -- (err reading file: could not find function definition line 0 in p)"
    );
    assert_eq!(
        parser::ir::def_line_from_read("f", 4, "p", &content),
        "function f(...) -- (err reading file: could not find function definition line 4 in p)"
    );
}

fn leaf(name: &str) -> Table {
    Table { full_name: format!("T.{name}"), name: s(name), children: vec![], functions: vec![] }
}

fn func(name: &str) -> Function {
    Function {
        full_name: format!("T.{name}"),
        name: s(name),
        source: s("x.lua"),
        func_def: s(""),
        func_def_line: 1,
        func_def_start: 1,
        callers: vec![],
    }
}

#[test]
fn sorts_by_name_ignoring_case_and_keeping_ties() {
    let mut inner = leaf("inner");
    inner.children = vec![leaf("z"), leaf("Y")];
    let mut t = Table {
        full_name: s("T"),
        name: s("T"),
        children: vec![leaf("beta"), leaf("Alpha"), inner, leaf("alpha"), leaf("Gamma")],
        functions: vec![func("b"), func("_a"), func("A"), func("a")],
    };
    t.sort_alphanumerical();
    let names: Vec<&str> = t.children.iter().map(|c| c.name.as_str()).collect();
    assert_eq!(names, vec!["Alpha", "alpha", "beta", "Gamma", "inner"]);
    let fnames: Vec<&str> = t.functions.iter().map(|f| f.name.as_str()).collect();
    assert_eq!(fnames, vec!["_a", "A", "a", "b"]);
    let inner_names: Vec<&str> = t.children[4].children.iter().map(|c| c.name.as_str()).collect();
    assert_eq!(inner_names, vec!["Y", "z"]);
}

#[test]
fn finds_nodes_by_path() {
    let t = sample_table();
    let p = |xs: &[&str]| xs.iter().map(|x| s(x)).collect::<VecDeque<String>>();
    match t.get_data(p(&["spawn"])) {
        Some(Node::Function(f)) => assert_eq!(f.full_name, ".GE.spawn"),
        _ => panic!("expected a function"),
    }
    match t.get_data(p(&["core"])) {
        Some(Node::Table(c)) => assert_eq!(c.functions.len(), 2),
        _ => panic!("expected a table"),
    }
    match t.get_data(p(&["core", "short"])) {
        Some(n) => assert_eq!(n.name(), "short"),
        None => panic!("expected a node"),
    }
    assert!(t.get_data(p(&[])).is_none());
    assert!(t.get_data(p(&["nothing"])).is_none());
    assert!(t.get_data(p(&["spawn", "x"])).is_none());
}

#[test]
fn prefers_a_function_to_a_table_of_the_same_name() {
    let mut t = leaf("T");
    t.children = vec![leaf("x")];
    t.functions = vec![func("x")];
    let p: VecDeque<String> = vec![s("x")].into();
    assert!(matches!(t.get_data(p), Some(Node::Function(_))));
}

#[test]
fn lists_every_name() {
    let t = sample_table();
    assert_eq!(
        t.get_all_function_names(),
        vec![
            (s(".GE.spawn"), s("spawn")),
            (s(".GE.print"), s("print")),
            (s(".GE.core.gone"), s("gone")),
            (s(".GE.core.short"), s("short")),
        ]
    );
    assert_eq!(t.get_all_children_names(), vec![(s(".GE.core"), s("core"))]);
}

#[test]
fn records_calls_on_the_first_function_with_the_full_name() {
    let mut t = sample_table();
    let calls = vec![(s("a.lua"), vec![3usize, 9])];
    assert!(t.set_calls_by_full_name(".GE.core.short", &calls));
    assert_eq!(t.children[0].functions[1].callers, calls);
    assert!(t.functions[0].callers.is_empty());
    assert!(!t.set_calls_by_full_name(".GE.nothing", &calls));
}

#[test]
fn clones_deeply() {
    let t = sample_table();
    let c = t.clone();
    assert_eq!(format!("{:?}", c), format!("{:?}", t));
}
