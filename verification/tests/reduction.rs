use permafrost::code_parser::{
    can_anchor, find_chain, token_given, find_iterated, is_apply_assignment, is_known_dataframe_field, is_token_match,
    parse_assignment, walk_chain, extract_lhs_variables, FunctionParser,
};
use permafrost::compile::compile_from_string;
use permafrost::graph::{strip_generics, Graph};
use permafrost::names::{MethodTable, NameSet};
use permafrost::preprocess::preprocess_code;
use permafrost::source::{CompileError, FrostFunctionSet, FrostSource};
use permafrost::text::word_given;

fn cs(s: &str) -> Vec<char> {
    s.chars().collect()
}

fn strings(names: &[&str]) -> Vec<String> {
    names.iter().map(|s| s.to_string()).collect()
}

fn methods(entries: &[(&str, &str)]) -> FrostFunctionSet {
    let mut dataframe_methods = MethodTable::new();
    for (k, v) in entries {
        dataframe_methods.insert(k.to_string(), v.to_string());
    }
    FrostFunctionSet {
        always_take: String::new(),
        dataframe_methods,
        problematic_methods: MethodTable::new(),
    }
}

const SCRIPT: &str = "namespace fr {\n    export class DataFrame {\n        constructor(data) {\n            this.values = data;\n        }\n        a() {\n            this.b();\n        }\n        b() {\n            this.c();\n        }\n        c() {\n            this.d();\n        }\n        d() {\n            return 1;\n        }\n        e() {\n            return 2;\n        }\n    }\n}\nfunction main() {\n    let df = fr.a();\n}\n";

const REDUCED: &str = "namespace fr {\n    export class DataFrame {\n        \nconstructor(data) {\n            this.values = data;\n        }\n\n        a() {\n            this.b();\n        }\n\n        b() {\n            this.c();\n        }\n\n        c() {\n            this.d();\n        }\n\n        d() {\n            return 1;\n        }\n\n}\n}\nfunction main() {\n    let df = fr.a();\n}\n";

const WITH_FLAGGED: &str = "namespace fr {\n    export function combine_dfs(dfs) {\n        return dfs[0].concat_all(dfs);\n    }\n    export class DataFrame {\n        constructor(data) {\n            this.values = data;\n        }\n        concat_all(others) {\n            return this;\n        }\n        unused() {\n            return this;\n        }\n    }\n}\n";

#[test]
fn preprocessing_gives_the_exact_text() {
    assert_eq!(
        preprocess_code("let a = 1; // c\n\n\n\nlet b = \"/* s */\";   \n"),
        "let a = 1;\n\nlet b = \"/* s */\";\n"
    );
    assert_eq!(preprocess_code("a /* b"), "a\n");
    assert_eq!(preprocess_code("'it\\'s' // x"), "'it\\'s'\n");
    assert_eq!(preprocess_code("a/*\n*/b"), "ab\n");
    assert_eq!(preprocess_code("x = `// ${y}`; /* z */ w"), "x = `// ${y}`;  w\n");
    assert_eq!(preprocess_code("a / b /c"), "a / b /c\n");
    assert_eq!(preprocess_code("\"open // still a string"), "\"open // still a string\n");
    assert_eq!(preprocess_code("a // b\nc"), "a\nc\n");
    assert_eq!(preprocess_code("\n\n\na\n\n"), "\na\n");
    assert_eq!(preprocess_code("a\n\n\nb\n \n\t\nc"), "a\n\nb\n\nc\n");
    assert_eq!(preprocess_code(""), "");
}

#[test]
fn splitting_gives_the_exact_sections() {
    let source = FrostSource::from_body("x\nnamespace fr {\n  a {\n  }\n}\ny\nnamespace fr {\n}\n");
    assert_eq!(source.fr, "namespace fr {\n  a {\n  }\n}\n");
    assert_eq!(source.main, "x\ny\nnamespace fr {\n}\n");

    let open = FrostSource::from_body("namespace fr {\r\n  a\r\nb");
    assert_eq!(open.fr, "namespace fr {\n  a\nb\n");
    assert_eq!(open.main, "");

    let bare = FrostSource::from_body("namespace fr\n{\n}\n");
    assert_eq!(bare.fr, "namespace fr\n");
    assert_eq!(bare.main, "{\n}\n");
}

#[test]
fn preprocessing_a_source_cleans_the_sections_asked_for() {
    let mut source = FrostSource {
        fr: "a // x\n".to_string(),
        main: "b // y\n".to_string(),
    };
    source.preprocess(false);
    assert_eq!(source.fr, "a\n");
    assert_eq!(source.main, "b // y\n");
    source.preprocess(true);
    assert_eq!(source.fr, "a\n");
    assert_eq!(source.main, "b\n");
}

#[test]
fn extraction_gives_the_exact_tables() {
    let source = FrostSource {
        fr: "export function combine_dfs(a) {\n  return 1;\n}\nclass DataFrame {\n  constructor(d) {\n    this.values = d;\n  }\n  filter() {\n    return this;\n  }\n}\n".to_string(),
        main: String::new(),
    };
    let set = source.extract_function_set().unwrap();
    assert_eq!(
        set.always_take,
        "export function combine_dfs(a) {\n  return 1;\n}\nclass DataFrame {\n  "
    );
    assert_eq!(set.problematic_methods.len(), 1);
    assert_eq!(
        set.problematic_methods.get("combine_dfs"),
        Some("export function combine_dfs(a) {\n  return 1;\n}\n".to_string())
    );
    assert_eq!(set.dataframe_methods.len(), 2);
    assert_eq!(
        set.dataframe_methods.get("constructor"),
        Some("constructor(d) {\n    this.values = d;\n  }\n".to_string())
    );
    assert_eq!(
        set.dataframe_methods.get("filter"),
        Some("  filter() {\n    return this;\n  }\n".to_string())
    );

    let mut required = NameSet::new();
    required.insert("constructor".to_string());
    required.insert("filter".to_string());
    assert_eq!(
        set.compile(&required).unwrap(),
        "class DataFrame {\n  \nconstructor(d) {\n    this.values = d;\n  }\n\n  filter() {\n    return this;\n  }\n\n}\n}"
    );
}

#[test]
fn extraction_keeps_a_method_under_its_decorated_name() {
    let source = FrostSource {
        fr: "constructor() {\n}\napply<T>(fn: (row: Row) => T): T[] {\n  return [];\n}\n".to_string(),
        main: String::new(),
    };
    let set = source.extract_function_set().unwrap();
    assert!(set.dataframe_methods.contains_key("apply<T>"));
    assert!(!set.dataframe_methods.contains_key("apply"));

    let mut required = NameSet::new();
    required.insert("apply".to_string());
    let out = set.compile(&required).unwrap();
    assert_eq!(out, "\napply<T>(fn: (row: Row) => T): T[] {\n  return [];\n}\n\n}\n}");
}

#[test]
fn extraction_leaves_out_a_method_named_like_the_flagged_function() {
    let source = FrostSource {
        fr: "export function combine_dfs(a) {\n}\nconstructor() {\n}\ncombine_dfs() {\n}\nkeep() {\n}\n".to_string(),
        main: String::new(),
    };
    let set = source.extract_function_set().unwrap();
    assert!(set.problematic_methods.contains_key("combine_dfs"));
    assert!(!set.dataframe_methods.contains_key("combine_dfs"));
    assert!(set.dataframe_methods.contains_key("keep"));
    assert_eq!(set.dataframe_methods.len(), 2);
}

#[test]
fn extraction_drops_a_block_left_open() {
    let source = FrostSource {
        fr: "constructor() {\n}\nopen() {\n  if (x) {\n}\n".to_string(),
        main: String::new(),
    };
    let set = source.extract_function_set().unwrap();
    assert_eq!(set.dataframe_methods.len(), 1);
    assert!(set.dataframe_methods.contains_key("constructor"));
}

#[test]
fn a_library_without_constructor_is_refused() {
    let source = FrostSource { fr: "namespace fr {\n}\n".to_string(), main: String::new() };
    let error = source.extract_function_set().unwrap_err();
    assert!(matches!(error, CompileError::MissingConstructor));
    assert_eq!(error.message(), "library section has no constructor");

    let whole = compile_from_string("namespace fr {\n}\nfunction main() {}\n").unwrap_err();
    assert!(matches!(whole, CompileError::MissingConstructor));
}

#[test]
fn a_required_name_without_body_is_reported() {
    let set = methods(&[("filter", "filter() {}\n"), ("rename", "rename() {}\n")]);
    let mut required = NameSet::new();
    required.insert("filter".to_string());
    required.insert("missing".to_string());
    required.insert("also_missing".to_string());
    let error = set.compile(&required).unwrap_err();
    assert!(matches!(&error, CompileError::LookupFailure(name) if name == "missing"));
    assert_eq!(error.message(), "couldn't find method: missing");

    let mut plain_apply = NameSet::new();
    plain_apply.insert("apply".to_string());
    let only_plain = methods(&[("apply", "apply() {}\n")]);
    assert!(matches!(
        only_plain.compile(&plain_apply),
        Err(CompileError::LookupFailure(name)) if name == "apply"
    ));
}

#[test]
fn a_flagged_function_stays_only_where_it_is_required() {
    let mut flagged = MethodTable::new();
    flagged.insert("combine_dfs".to_string(), "function combine_dfs() {}\n".to_string());
    let mut table = MethodTable::new();
    table.insert("filter".to_string(), "filter() {}\n".to_string());
    let set = FrostFunctionSet {
        always_take: "let a;\nfunction combine_dfs() {}\nlet b;\n".to_string(),
        dataframe_methods: table,
        problematic_methods: flagged,
    };

    let mut with = NameSet::new();
    with.insert("combine_dfs".to_string());
    with.insert("filter".to_string());
    assert_eq!(
        set.compile(&with).unwrap(),
        "let a;\nfunction combine_dfs() {}\nlet b;\n\nfilter() {}\n\n}\n}"
    );

    let mut without = NameSet::new();
    without.insert("filter".to_string());
    assert_eq!(set.compile(&without).unwrap(), "let a;\nlet b;\n\nfilter() {}\n\n}\n}");
}

#[test]
fn plain_names_have_no_type_parameters() {
    assert_eq!(strip_generics("apply<T>"), "apply");
    assert_eq!(strip_generics("filter"), "filter");
    assert_eq!(strip_generics("map<K, V>"), "map");
    assert_eq!(strip_generics(""), "");
}

#[test]
fn the_graph_names_a_method_without_its_type_parameters() {
    let graph = Graph::from_function_set(&methods(&[
        ("apply<T>", "this.copy();"),
        ("copy", ""),
    ]));
    assert!(graph.contains_node("apply"));
    assert!(!graph.contains_node("apply<T>"));
    assert_eq!(graph.edges_of("apply"), Some(strings(&["copy"])));
    assert_eq!(graph.edges_of("apply<T>"), None);
    assert_eq!(graph.node_count(), 2);
}

#[test]
fn a_call_to_an_undefined_method_leaves_no_edge() {
    let graph = Graph::from_function_set(&methods(&[
        ("head", "this.undefined_method(); this.tail();"),
        ("tail", ""),
    ]));
    assert_eq!(graph.edges_of("head"), Some(strings(&["tail"])));
    assert_eq!(graph.edges_of("undefined_method"), None);
    assert!(!graph.contains_node("undefined_method"));
}

#[test]
fn the_search_follows_calls_and_passes_over_unknown_roots() {
    let graph = Graph::from_function_set(&methods(&[
        ("a", "this.b(); this.c();"),
        ("b", "this.a();"),
        ("c", ""),
        ("lonely", "this.a();"),
    ]));
    assert_eq!(graph.reached(&strings(&["a"])).to_vec(), strings(&["a", "b", "c"]));
    assert_eq!(graph.reached(&strings(&["c", "host", "c"])).to_vec(), strings(&["c"]));
    assert_eq!(graph.reached(&strings(&[])).to_vec(), Vec::<String>::new());
    assert_eq!(graph.reached(&strings(&["nothing"])).to_vec(), Vec::<String>::new());
}

#[test]
fn roots_that_are_no_methods_are_told_apart() {
    let graph = Graph::from_function_set(&methods(&[
        ("concat_all", "this.helper();"),
        ("helper", ""),
    ]));
    let roots = strings(&["getRange", "helper", "combine_dfs", "getRange"]);
    assert_eq!(graph.unknown_roots(&roots), strings(&["getRange", "combine_dfs", "getRange"]));
    assert_eq!(graph.unknown_roots(&strings(&["helper"])), Vec::<String>::new());
    assert_eq!(graph.reachable_from(&roots).to_vec(), strings(&["helper"]));
    assert_eq!(
        graph.reachable_from(&strings(&["combine_dfs", "concat_all"])).to_vec(),
        strings(&["concat_all", "helper"])
    );
    assert_eq!(graph.nodes(), strings(&["concat_all", "helper"]));
}

#[test]
fn the_aliased_function_brings_the_method_it_relies_on() {
    let graph = Graph::from_function_set(&methods(&[
        ("concat_all", "this.helper();"),
        ("helper", ""),
        ("other", ""),
    ]));
    assert_eq!(
        graph.reached(&strings(&["combine_dfs"])).to_vec(),
        strings(&["combine_dfs", "concat_all", "helper"])
    );
    assert_eq!(
        graph.search(&strings(&["combine_dfs"])).to_vec(),
        strings(&["constructor", "combine_dfs", "concat_all", "helper"])
    );

    let own = Graph::from_function_set(&methods(&[("combine_dfs", ""), ("concat_all", "")]));
    assert_eq!(own.reached(&strings(&["combine_dfs"])).to_vec(), strings(&["combine_dfs"]));
}

#[test]
fn the_required_names_start_with_the_constructor() {
    let graph = Graph::from_function_set(&methods(&[
        ("constructor", ""),
        ("a", "this.b();"),
        ("b", "this.c();"),
        ("c", "this.d();"),
        ("d", ""),
        ("e", ""),
    ]));
    assert_eq!(
        graph.search(&strings(&["a"])).to_vec(),
        strings(&["constructor", "a", "b", "c", "d"])
    );
    assert_eq!(
        graph.search(&strings(&["d", "constructor", "c"])).to_vec(),
        strings(&["constructor", "c", "d"])
    );
    assert_eq!(graph.search(&strings(&[])).to_vec(), strings(&["constructor"]));
}

#[test]
fn the_required_names_hold_the_roots_and_only_methods() {
    let graph = Graph::from_function_set(&methods(&[
        ("constructor", ""),
        ("print", "this.head(); this.tail(); this.log();"),
        ("head", "this.print();"),
        ("tail", ""),
        ("idle", ""),
    ]));
    let roots = strings(&["print", "tail"]);
    let required = graph.search(&roots);
    for root in &roots {
        assert!(required.contains(root));
    }
    for name in required.to_vec() {
        assert!(graph.contains_node(&name));
    }
    assert!(!required.contains("idle"));
    assert!(!required.contains("log"));
}

#[test]
fn a_search_from_what_was_found_finds_the_same() {
    let graph = Graph::from_function_set(&methods(&[
        ("a", "this.b();"),
        ("b", "this.c();"),
        ("c", ""),
        ("concat_all", "this.a();"),
        ("z", ""),
    ]));
    let first = graph.reached(&strings(&["combine_dfs", "host"]));
    let again = graph.reached(&first.to_vec());
    assert_eq!(again.to_vec(), first.to_vec());
    assert_eq!(first.to_vec(), strings(&["a", "b", "c", "combine_dfs", "concat_all"]));
}

#[test]
fn a_script_without_library_comes_back_cleaned() {
    let input = "function main() {\n  // hi\n  let x = 1;   \n}\n";
    let out = compile_from_string(input).unwrap();
    assert_eq!(out, "function main() {\n\n  let x = 1;\n}\n");
    assert_eq!(out, preprocess_code(input));
    assert_eq!(compile_from_string("").unwrap(), "");
    assert_eq!(compile_from_string("// namespace fr {\nlet a;").unwrap(), "\nlet a;\n");
}

#[test]
fn a_chain_of_calls_keeps_every_method_on_the_way() {
    assert_eq!(compile_from_string(SCRIPT).unwrap(), REDUCED);
    let out = compile_from_string(SCRIPT).unwrap();
    for kept in ["constructor(data) {", "a() {", "b() {", "c() {", "d() {", "return 1;"] {
        assert!(out.contains(kept));
    }
    assert!(!out.contains("e() {"));
    assert!(!out.contains("return 2;"));
    assert!(out.ends_with("function main() {\n    let df = fr.a();\n}\n"));
}

#[test]
fn reducing_again_changes_nothing_but_blank_lines() {
    let once = compile_from_string(SCRIPT).unwrap();
    let twice = compile_from_string(&once).unwrap();
    let thrice = compile_from_string(&twice).unwrap();
    assert_eq!(preprocess_code(&twice), preprocess_code(&once));
    assert_eq!(thrice, twice);
    for kept in ["constructor(data) {", "a() {", "b() {", "c() {", "d() {"] {
        assert!(twice.contains(kept));
    }
}

#[test]
fn the_flagged_function_is_kept_for_a_script_that_calls_it() {
    let script = format!("{}function main() {{\n    let df = fr.combine_dfs([a, b]);\n}}\n", WITH_FLAGGED);
    let out = compile_from_string(&script).unwrap();
    assert!(out.contains("export function combine_dfs(dfs) {"));
    assert!(out.contains("concat_all(others) {"));
    assert!(out.contains("constructor(data) {"));
    assert!(!out.contains("unused() {"));
}

#[test]
fn the_flagged_function_is_dropped_for_a_script_that_does_not_call_it() {
    let script = format!("{}function main() {{\n    let df = fr.read();\n}}\n", WITH_FLAGGED);
    let out = compile_from_string(&script).unwrap();
    assert!(!out.contains("combine_dfs"));
    assert!(!out.contains("concat_all"));
    assert!(!out.contains("unused"));
    assert!(out.contains("constructor(data) {"));
    assert!(out.contains("let df = fr.read();"));
}

#[test]
fn the_aliased_function_without_its_method_is_reported() {
    let script = "namespace fr {\n    export function combine_dfs(dfs) {\n    }\n    class DataFrame {\n        constructor() {\n        }\n    }\n}\nlet df = fr.combine_dfs(x);\n";
    let error = compile_from_string(script).unwrap_err();
    assert!(matches!(&error, CompileError::LookupFailure(name) if name == "concat_all"));
}

#[test]
fn a_comment_does_not_open_the_library_or_count_as_a_brace() {
    let script = "// namespace fr {\nnamespace fr { // {{{\n    class DataFrame {\n        constructor() { /* } */\n        }\n    }\n}\nlet x = 1;\n";
    let out = compile_from_string(script).unwrap();
    assert!(out.ends_with("\nlet x = 1;\n"));
    assert!(out.contains("constructor() {"));
}

#[test]
fn bindings_are_read_from_the_left_hand_side() {
    assert_eq!(parse_assignment("let df = fr.read_sheet();", "fr"), Some(strings(&["df"])));
    assert_eq!(parse_assignment("  const  a  =  b.c(fr)", "fr"), Some(strings(&["a"])));
    assert_eq!(parse_assignment("let [a, b ,, c] = fr.split()", "fr"), Some(strings(&["a", "b", "c"])));
    assert_eq!(parse_assignment("let [] = fr.split()", "fr"), Some(strings(&[])));
    assert_eq!(parse_assignment("let x = y == fr", "fr"), Some(strings(&["x"])));
    assert_eq!(parse_assignment("let x: Frame = fr.new()", "fr"), Some(strings(&["x:"])));
    assert_eq!(parse_assignment("let df = workbook.get();", "fr"), None);
    assert_eq!(parse_assignment("df = fr.read_sheet();", "fr"), None);
    assert_eq!(parse_assignment("letdf = fr.read_sheet();", "fr"), None);
    assert_eq!(parse_assignment("let df;", "fr"), None);
    assert_eq!(parse_assignment("let = fr.read()", "fr"), None);
    assert_eq!(parse_assignment("var df = fr.read()", "fr"), None);
    assert_eq!(extract_lhs_variables(&cs("const [x]")), Some(vec![cs("x")]));
    assert_eq!(extract_lhs_variables(&cs("var x")), None);
}

#[test]
fn storage_fields_and_the_escape_hatch_are_recognised() {
    for field in ["values", "columns", "dtypes", "__headers", "this.values", "get_columns"] {
        assert!(is_known_dataframe_field(field));
    }
    for other in ["value", "column", "headers", "", "map"] {
        assert!(!is_known_dataframe_field(other));
    }
    assert!(is_apply_assignment(&cs("let x = df.apply(f)")));
    assert!(!is_apply_assignment(&cs("let x = df.apply")));
    assert!(!is_apply_assignment(&cs("let x = apply(df)")));
}

#[test]
fn a_token_has_no_word_character_next_to_it() {
    let code = cs("x = df . filter()");
    assert!(is_token_match(&code, 4, &cs("df")));
    assert!(is_token_match(&cs("df"), 0, &cs("df")));
    assert!(is_token_match(&cs("(df)"), 1, &cs("df")));
    assert!(is_token_match(&cs("return df.x"), 7, &cs("df")));
    assert!(is_token_match(&cs("a-df+b"), 2, &cs("df")));
    assert!(!is_token_match(&cs("df_filtered.x"), 0, &cs("df")));
    assert!(!is_token_match(&cs("_df.x"), 1, &cs("df")));
    assert!(!is_token_match(&cs("xdf.x"), 1, &cs("df")));
    assert!(!is_token_match(&cs("df2.x"), 0, &cs("df")));
    assert!(!is_token_match(&cs("\u{e9}df.x"), 1, &cs("df")));
    assert!(is_token_match(&cs("abc"), 1, &cs("")) == false);
    assert!(is_token_match(&cs("a c"), 1, &cs(" ")) == false);
    assert!(is_token_match(&cs("a.c"), 2, &cs("")) == false);
    assert!(is_token_match(&cs(". ."), 1, &cs("")));
}

#[test]
fn a_token_is_judged_from_what_its_neighbours_are() {
    assert!(token_given(None, false, None, false));
    assert!(token_given(Some(' '), false, Some('.'), false));
    assert!(token_given(Some('('), false, None, false));
    assert!(!token_given(Some('a'), true, Some('.'), false));
    assert!(!token_given(Some(' '), false, Some('9'), true));
    assert!(!token_given(Some('_'), false, Some('.'), false));
    assert!(!token_given(Some(' '), false, Some('_'), false));
    assert!(!token_given(Some('x'), true, Some('y'), true));
    assert!(word_given('_', false));
    assert!(word_given('a', true));
    assert!(!word_given('-', false));
}

#[test]
fn the_longest_name_that_heads_a_chain_is_the_anchor() {
    let mut names = NameSet::new();
    for n in ["df", "df_filtered", "fr"] {
        names.insert(n.to_string());
    }
    assert_eq!(
        find_chain(&cs("df_filtered.to_csv()"), &names),
        Some((cs("df_filtered"), vec![cs("to_csv")]))
    );
    assert_eq!(
        find_chain(&cs("df.join(df_filtered).print()"), &names),
        Some((cs("df"), vec![cs("join"), cs("print")]))
    );
    assert_eq!(
        find_chain(&cs("fr.read(df.head())"), &names),
        Some((cs("df"), vec![cs("head")]))
    );
    assert_eq!(
        find_chain(&cs("let df_filtered = df.filter()"), &names),
        Some((cs("df"), vec![cs("filter")]))
    );
    assert_eq!(
        find_chain(&cs("xdf.a(); df.b()"), &names),
        Some((cs("df"), vec![cs("b")]))
    );
    assert_eq!(can_anchor(&cs("let df_filtered = df.filter()"), &cs("df")), Some(18));
    assert_eq!(can_anchor(&cs("let df_filtered = df.filter()"), &cs("df_filtered")), None);
    assert_eq!(can_anchor(&cs("df .a(); df.b()"), &cs("df")), Some(0));
    assert_eq!(can_anchor(&cs("df"), &cs("df.filter()")), None);
    assert_eq!(find_chain(&cs("let df = 1"), &names), None);
    assert_eq!(
        find_chain(&cs("return df.head()"), &names),
        Some((cs("df"), vec![cs("head")]))
    );
    assert_eq!(find_chain(&cs("dfx.print()"), &names), None);
    assert_eq!(
        find_chain(&cs("df[0].print()"), &names),
        Some((cs("df"), vec![cs("[0]"), cs("print")]))
    );

    let mut parser = FunctionParser::new();
    parser.tracking.insert("df".to_string());
    parser.tracking.insert("df_filtered".to_string());
    assert_eq!(
        parser.find_methods_in_chain("df_filtered.to_csv()"),
        Some(("df_filtered".to_string(), strings(&["to_csv"])))
    );
    assert_eq!(parser.find_methods_in_chain("nothing.here()"), None);
}

#[test]
fn a_chain_stops_at_a_storage_field() {
    assert_eq!(walk_chain(&cs(".values.map()")), Vec::<Vec<char>>::new());
    assert_eq!(walk_chain(&cs(".copy().columns.push(x)")), vec![cs("copy")]);
    assert_eq!(walk_chain(&cs(".a(x).b ( y ) . c;")), vec![cs("a"), cs("b"), cs("c")]);
    assert_eq!(walk_chain(&cs(".a.(x);.b")), vec![cs("a")]);
    assert_eq!(walk_chain(&cs(".a.(x.(y);.b")), vec![cs("a"), cs("b")]);
    assert_eq!(walk_chain(&cs("")), Vec::<Vec<char>>::new());
    assert_eq!(walk_chain(&cs(".today")), vec![cs("today")]);
}

#[test]
fn a_loop_over_a_method_result_records_the_method() {
    assert_eq!(
        find_iterated(&cs("for (let [row, i] of output.iterrows()) {"), &cs("output")),
        Some(cs("iterrows"))
    );
    assert_eq!(find_iterated(&cs("for (let v of output.values) {"), &cs("output")), None);
    assert_eq!(find_iterated(&cs("for (let v of output.(x)) {"), &cs("output")), None);
    assert_eq!(find_iterated(&cs("for (let v of other.rows()) {"), &cs("output")), None);
    assert_eq!(find_iterated(&cs("of df.rows"), &cs("df")), Some(cs("rows")));

    let mut parser = FunctionParser::new();
    parser.parse("let out = this.copy()\nfor (let r of out.iterrows()) {\n}", "this");
    assert!(parser.tracking.contains("out"));
    assert!(parser.functions.contains("iterrows"));
}

#[test]
fn known_names_are_never_lost() {
    let mut parser = FunctionParser::new();
    parser.tracking.insert("kept".to_string());
    parser.parse("let a = root.x();\nlet b = a.apply(f);\nlet c = kept;", "root");
    assert_eq!(
        parser.tracking.to_vec(),
        strings(&["new DataFrame", "kept", "root", "a", "c"])
    );
}

#[test]
fn shadowed_names_are_kept_apart() {
    let mut parser = FunctionParser::new();
    parser.parse(
        "let df = fr.read_csv();\nlet df_filtered = df.filter();\ndf_filtered.to_csv();\n",
        "fr",
    );
    assert_eq!(
        parser.tracking.to_vec(),
        strings(&["new DataFrame", "fr", "df", "df_filtered"])
    );
    assert_eq!(parser.get_methods(), strings(&["read_csv", "filter", "to_csv"]));

    let mut short = FunctionParser::new();
    short.parse("let df = fr.read_csv();\nlet df_filtered = df.filter();\n", "fr");
    assert_eq!(short.get_methods(), strings(&["read_csv", "filter"]));
    assert_eq!(
        parser.find_methods_in_chain("df_filtered.to_csv()"),
        Some(("df_filtered".to_string(), strings(&["to_csv"])))
    );
}

#[test]
fn the_result_of_the_escape_hatch_is_not_followed() {
    let mut parser = FunctionParser::new();
    parser.parse(
        "let df = fr.read_csv();\nlet x = df.apply(row => row.get(\"v\"));\nx.map(f);\n",
        "fr",
    );
    assert!(parser.tracking.contains("df"));
    assert!(!parser.tracking.contains("x"));
    assert!(parser.functions.contains("read_csv"));
    assert!(parser.functions.contains("apply"));
    assert!(!parser.functions.contains("map"));
}

#[test]
fn a_storage_field_ends_the_walk() {
    let mut parser = FunctionParser::new();
    parser.parse("this.values.map();", "this");
    assert!(parser.functions.is_empty());
    assert_eq!(parser.tracking.to_vec(), strings(&["new DataFrame", "this"]));
}

#[test]
fn names_that_begin_with_an_equals_sign_are_dropped() {
    let mut parser = FunctionParser::new();
    parser.functions.insert("copy".to_string());
    parser.functions.insert("= this".to_string());
    parser.functions.insert("  =x".to_string());
    parser.functions.insert("a=b".to_string());
    parser.clean_methods();
    assert_eq!(parser.get_methods(), strings(&["copy", "a=b"]));

    let mut whole = FunctionParser::new();
    whole.parse("this.\n= 5; this.ok();", "this");
    assert_eq!(whole.get_methods(), strings(&["ok"]));
}

#[test]
fn the_passes_can_be_run_one_by_one() {
    let mut parser = FunctionParser::new();
    parser.first_pass_assignments("const [a, b] = fr.pair();\nlet c = a.x();\nlet d = e.y();", "fr");
    assert_eq!(parser.tracking.to_vec(), strings(&["new DataFrame", "fr", "a", "b", "c"]));
    assert!(parser.functions.is_empty());
    parser.second_pass_methods("a.one(); b.two().three(); e.four();");
    assert_eq!(parser.get_methods(), strings(&["one", "two", "three"]));
}
