use parser::ir::Table;
use parser::lookup::{self, CodeFile, CodeIndex};

fn s(x: &str) -> String {
    x.to_string()
}

fn file(path: &str, src: &str) -> CodeFile {
    CodeFile::from_source(s(path), src)
}

#[test]
fn finds_the_calls_of_each_line() {
    let mut f = file(
        "a.lua",
        "local function helper(x)\n  return foo(x) + bar (1)\nend\nfunction M.run()\n  helper(2) -- baz(3)\nprint\"x\"\n1abc(2)",
    );
    f.extract_all_lua_func_calls();
    assert_eq!(
        f.func_calls,
        vec![
            (s("helper"), 1),
            (s("foo"), 2),
            (s("bar"), 2),
            (s("run"), 4),
            (s("helper"), 5),
            (s("baz"), 5),
            (s("abc"), 7),
        ]
    );
    assert_eq!(f.look_for_func_call("helper"), vec![1, 5]);
    assert_eq!(f.look_for_func_call("nothing"), Vec::<usize>::new());
}

#[test]
fn names_of_one_line() {
    assert_eq!(lookup::line_call_names("function f() g\t( h"), vec![s("f"), s("g")]);
    assert_eq!(lookup::line_call_names("é(x) _a1(b)"), vec![s("_a1")]);
}

#[test]
fn gives_lines_and_sections() {
    let f = file("a.lua", "l1\nl2\nl3\nl4");
    assert_eq!(f.get_line(0), Some(&s("l1")));
    assert_eq!(f.get_line(4), None);
    assert_eq!(f.get_section(2, 3), vec![s("l2"), s("l3")]);
    assert_eq!(f.get_section(0, 1), vec![s("l1")]);
    assert_eq!(f.get_section(3, 10), vec![s("l3"), s("l4")]);
    assert_eq!(f.get_section(5, 9), Vec::<String>::new());
    assert_eq!(f.get_section(3, 2), Vec::<String>::new());
}

#[test]
fn finds_a_definition_below_a_line() {
    let f = file("a.lua", "x = 1\n\n  local function go(a)\nend\nfunction M.f()\n");
    assert_eq!(f.get_func_def(0), Some(s("function go(a)")));
    assert_eq!(f.get_func_def(3), Some(s("function M.f()")));
    assert_eq!(f.get_func_def(5), None);
    let far = file("b.lua", "a\nb\nc\nd\ne\nfunction g()");
    assert_eq!(far.get_func_def(0), None);
    assert_eq!(far.get_func_def(1), Some(s("function g()")));
}

#[test]
fn takes_the_comments_above_a_definition() {
    let f = file("a.lua", "x = 1\n-- does it\n\n  -- really\nfunction M.f()\n  return 1\nend\n");
    assert_eq!(
        f.get_func_decl_with_comments(5, 7),
        (vec![s("-- does it"), s(""), s("  -- really"), s("function M.f()"), s("  return 1"), s("end")], 3)
    );
    assert_eq!(f.get_func_decl_with_comments(1, 1), (vec![s("x = 1")], 0));
    assert_eq!(f.get_func_decl_with_comments(9, 12), (vec![], 0));
}

#[test]
fn shows_the_lines_around_calls() {
    let f = file("a.lua", "l1\nl2\nl3\nl4");
    let c = f.get_func_call_lines(&[1, 3, 4, 9]);
    assert_eq!(c.len(), 4);
    assert_eq!((c[0].line, c[0].surrounding_code.clone()), (1, vec![s("l1"), s("l2")]));
    assert_eq!(c[1].surrounding_code, vec![s("l2"), s("l3"), s("l4")]);
    assert_eq!(c[2].surrounding_code, vec![s("l3"), s("l4")]);
    assert_eq!(c[3].surrounding_code, Vec::<String>::new());
}

#[test]
fn keeps_the_last_file_at_each_path() {
    let idx = CodeIndex::from_files(vec![file("a", "first"), file("b", "b"), file("a", "second")]);
    assert_eq!(idx.files.len(), 2);
    assert_eq!(idx.get("a").unwrap().content, vec![s("second")]);
    assert_eq!(idx.get("b").unwrap().content, vec![s("b")]);
    assert!(idx.get("c").is_none());
    let mut idx = CodeIndex::new();
    idx.insert(file("x", "1"));
    assert_eq!(idx.get("x").unwrap().content, vec![s("1")]);
}

#[test]
fn records_the_callers_of_every_function() {
    let mut root = Table {
        full_name: s(".GE"),
        name: s("GE"),
        children: vec![],
        functions: vec![parser::ir::Function {
            full_name: s(".GE.spawn"),
            name: s("spawn"),
            source: s("a.lua"),
            func_def: s("function spawn()"),
            func_def_line: 3,
            func_def_start: 1,
            callers: vec![],
        }],
    };
    let files = vec![
        file("a.lua", "function spawn()\nend\nspawn()"),
        file("b.lua", "x = 1"),
        file("c.lua", "M.spawn (1)\nspawn(2)"),
    ];
    let idx = lookup::look_up_src_info(&mut root, files);
    assert_eq!(
        root.functions[0].callers,
        vec![(s("a.lua"), vec![1, 3]), (s("c.lua"), vec![1, 2])]
    );
    assert_eq!(idx.files.len(), 3);
    assert_eq!(idx.get("c.lua").unwrap().func_calls, vec![(s("spawn"), 1), (s("spawn"), 2)]);
}

#[test]
fn tells_source_files_by_extension() {
    assert!(lookup::is_allowed_extension("LUA", &["lua", "js"]));
    assert!(lookup::is_allowed_extension("js", &["lua", "js"]));
    assert!(!lookup::is_allowed_extension("json", &["lua", "js"]));
    assert_eq!(lookup::normalize_path("lua\\ge\\x.lua"), "lua/ge/x.lua");
}
