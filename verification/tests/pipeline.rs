use rcss::ast::{Node, NodeKind};
use rcss::compile::{compile, css_map_to_string, generate_css};
use rcss::error::RCSSError;
use rcss::maps::{NestedMap, ProjectCache, StrMap};
use rcss::process_x::functions::process_function_definition;
use rcss::process_x::imports::process_import_statement;
use rcss::process_x::keyframes::process_keyframes_definition;
use rcss::process_x::media_queries::process_media_query;
use rcss::process_x::rule_normal::process_rule_normal;
use rcss::process_x::variables::process_variable_declaration as collect_variable;
use rcss::common::process_variable_declaration as resolve_declaration;

fn node(kind: NodeKind, text: &str, children: Vec<Node>) -> Node {
    Node {
        kind,
        text: text.to_string(),
        line: 1,
        column: 1,
        children,
    }
}

fn leaf(kind: NodeKind, text: &str) -> Node {
    node(kind, text, Vec::new())
}

fn var_decl(name: &str, quoted_value: &str) -> Node {
    node(
        NodeKind::VariableDeclaration,
        "",
        vec![leaf(NodeKind::VariableName, name), leaf(NodeKind::StringLiteral, quoted_value)],
    )
}

fn plain_decl(text: &str) -> Node {
    leaf(NodeKind::Declaration, text)
}

fn ref_decl(text: &str, reference: &str) -> Node {
    node(NodeKind::Declaration, text, vec![leaf(NodeKind::VariableReference, reference)])
}

fn decls_for<'a>(map: &'a StrMap, key: &str) -> Vec<String> {
    map.get(key).expect("selector missing").clone()
}

#[test]
fn substitutes_defined_variable_in_declaration() {
    let meta = collect_variable(Vec::new(), &var_decl("primary", "\"blue\""));
    let rule = node(
        NodeKind::RuleNormal,
        "",
        vec![
            leaf(NodeKind::Selector, ".box"),
            ref_decl("color: &primary;", "&primary"),
            leaf(NodeKind::RightCurlyBrace, "}"),
        ],
    );
    let out = process_rule_normal(&meta, StrMap::new(), &rule, "", "main.rcss").unwrap();
    assert_eq!(decls_for(&out, ".box"), vec!["color: blue;".to_string()]);
}

#[test]
fn whole_identifier_match_keeps_longer_names_intact() {
    // `&col` must not be replaced inside `&color`
    let mut meta = collect_variable(Vec::new(), &var_decl("col", "\"red\""));
    meta = collect_variable(meta, &var_decl("color", "\"green\""));
    let out = resolve_declaration(
        &ref_decl("border: &col &color;", "&col"),
        &meta,
        "",
        "main.rcss",
    )
    .unwrap();
    assert_eq!(out, "border: red &color;");
}

#[test]
fn undefined_variable_is_a_hard_error_naming_it() {
    let rule = node(
        NodeKind::RuleNormal,
        "",
        vec![
            leaf(NodeKind::Selector, ".box"),
            ref_decl("color: &primary;", "&primary"),
            leaf(NodeKind::RightCurlyBrace, "}"),
        ],
    );
    let err = process_rule_normal(&Vec::new(), StrMap::new(), &rule, "", "main.rcss").unwrap_err();
    match err {
        RCSSError::VariableError { variable_name, .. } => {
            assert_eq!(variable_name, "primary");
        }
        other => panic!("wrong error kind: {:?}", other),
    }
}

#[test]
fn pseudo_selector_merges_without_space() {
    let rule = node(
        NodeKind::RuleNormal,
        "",
        vec![
            leaf(NodeKind::Selector, "A"),
            leaf(NodeKind::Selector, "&:hover"),
            plain_decl("color: red;"),
            leaf(NodeKind::RightCurlyBrace, "}"),
            leaf(NodeKind::RightCurlyBrace, "}"),
        ],
    );
    let out = process_rule_normal(&Vec::new(), StrMap::new(), &rule, "", "main.rcss").unwrap();
    assert_eq!(decls_for(&out, "A:hover"), vec!["color: red;".to_string()]);
    assert!(out.get("A :hover").is_none());
}

#[test]
fn nested_selector_joins_with_space() {
    let rule = node(
        NodeKind::RuleNormal,
        "",
        vec![
            leaf(NodeKind::Selector, "A"),
            leaf(NodeKind::Selector, "B"),
            plain_decl("color: red;"),
            leaf(NodeKind::RightCurlyBrace, "}"),
            leaf(NodeKind::RightCurlyBrace, "}"),
        ],
    );
    let out = process_rule_normal(&Vec::new(), StrMap::new(), &rule, "", "main.rcss").unwrap();
    assert_eq!(decls_for(&out, "A B"), vec!["color: red;".to_string()]);
}

#[test]
fn pseudo_suffix_unwinds_before_parent_pops() {
    // after closing the pseudo block, declarations land on the parent again
    let rule = node(
        NodeKind::RuleNormal,
        "",
        vec![
            leaf(NodeKind::Selector, "A"),
            leaf(NodeKind::Selector, "&:hover"),
            plain_decl("color: red;"),
            leaf(NodeKind::RightCurlyBrace, "}"),
            plain_decl("margin: 0;"),
            leaf(NodeKind::RightCurlyBrace, "}"),
        ],
    );
    let out = process_rule_normal(&Vec::new(), StrMap::new(), &rule, "", "main.rcss").unwrap();
    assert_eq!(decls_for(&out, "A:hover"), vec!["color: red;".to_string()]);
    assert_eq!(decls_for(&out, "A"), vec!["margin: 0;".to_string()]);
}

fn mixin_definition(name: &str, lines: &[&str]) -> Node {
    let block = node(
        NodeKind::FunctionBlock,
        "",
        lines.iter().map(|l| plain_decl(l)).collect(),
    );
    node(
        NodeKind::FunctionDefinition,
        "",
        vec![leaf(NodeKind::FunctionName, name), block],
    )
}

fn mixin_call(name: &str) -> Node {
    node(
        NodeKind::UserCreatedFunctionCall,
        &format!("{}();", name),
        vec![leaf(NodeKind::FunctionName, name)],
    )
}

#[test]
fn macro_expands_identically_at_two_call_sites() {
    let meta = process_function_definition(
        Vec::new(),
        &mixin_definition("mixin", &["color: red;", "margin: 0;"]),
        "",
        "main.rcss",
        false,
    )
    .unwrap();
    let rule_a = node(
        NodeKind::RuleNormal,
        "",
        vec![leaf(NodeKind::Selector, ".a"), mixin_call("mixin"), leaf(NodeKind::RightCurlyBrace, "}")],
    );
    let rule_b = node(
        NodeKind::RuleNormal,
        "",
        vec![leaf(NodeKind::Selector, ".b"), mixin_call("mixin"), leaf(NodeKind::RightCurlyBrace, "}")],
    );
    let out = process_rule_normal(&meta, StrMap::new(), &rule_a, "", "main.rcss").unwrap();
    let out = process_rule_normal(&meta, out, &rule_b, "", "main.rcss").unwrap();
    let a = decls_for(&out, ".a");
    let b = decls_for(&out, ".b");
    assert_eq!(a, b);
    assert_eq!(a, vec!["color: red;".to_string(), "margin: 0;".to_string()]);
}

#[test]
fn macro_redefinition_does_not_rewrite_expanded_sites() {
    let meta = process_function_definition(
        Vec::new(),
        &mixin_definition("mixin", &["color: red;"]),
        "",
        "main.rcss",
        false,
    )
    .unwrap();
    let rule_a = node(
        NodeKind::RuleNormal,
        "",
        vec![leaf(NodeKind::Selector, ".a"), mixin_call("mixin"), leaf(NodeKind::RightCurlyBrace, "}")],
    );
    let out = process_rule_normal(&meta, StrMap::new(), &rule_a, "", "main.rcss").unwrap();
    // redefine the macro afterwards; the expansion of `.a` must not change
    let meta = process_function_definition(
        meta,
        &mixin_definition("mixin", &["color: green;"]),
        "",
        "main.rcss",
        false,
    )
    .unwrap();
    let rule_b = node(
        NodeKind::RuleNormal,
        "",
        vec![leaf(NodeKind::Selector, ".b"), mixin_call("mixin"), leaf(NodeKind::RightCurlyBrace, "}")],
    );
    let out = process_rule_normal(&meta, out, &rule_b, "", "main.rcss").unwrap();
    assert_eq!(decls_for(&out, ".a"), vec!["color: red;".to_string()]);
    assert_eq!(decls_for(&out, ".b"), vec!["color: green;".to_string()]);
}

#[test]
fn unknown_macro_call_is_a_function_error() {
    let rule = node(
        NodeKind::RuleNormal,
        "",
        vec![leaf(NodeKind::Selector, ".a"), mixin_call("nope"), leaf(NodeKind::RightCurlyBrace, "}")],
    );
    let err = process_rule_normal(&Vec::new(), StrMap::new(), &rule, "", "main.rcss").unwrap_err();
    match err {
        RCSSError::FunctionError { function_name, message, .. } => {
            assert_eq!(function_name, "nope");
            assert_eq!(message, "Function not declared in scope");
        }
        other => panic!("wrong error kind: {:?}", other),
    }
}

fn keyframes_rule(name: &str, frames: &[(&str, &str)]) -> Node {
    let mut kids = Vec::new();
    for (sel, decl) in frames {
        kids.push(leaf(NodeKind::KeyframeSelector, sel));
        kids.push(plain_decl(decl));
        kids.push(leaf(NodeKind::RightCurlyBrace, "}"));
    }
    node(
        NodeKind::KeyframesRule,
        "",
        vec![
            leaf(NodeKind::KeyframesName, name),
            node(NodeKind::KeyframeSelectorBlock, "", kids),
        ],
    )
}

#[test]
fn keyframes_emit_in_numeric_order() {
    let kf = keyframes_rule(
        "spin",
        &[("100%", "opacity: 1;"), ("0%", "opacity: 0;"), ("50%", "opacity: 0.5;")],
    );
    let out =
        process_keyframes_definition(NestedMap::new(), &kf, &Vec::new(), "", "main.rcss").unwrap();
    let css = css_map_to_string(&StrMap::new(), &out, &Vec::new(), &NestedMap::new(), true);
    let expected = "@keyframes spin {\n    0% {\n        opacity: 0;\n    }\n\n    50% {\n        opacity: 0.5;\n    }\n\n    100% {\n        opacity: 1;\n    }\n\n}\n\n";
    assert_eq!(css, expected);
}

#[test]
fn keyframes_with_from_and_to_sort_lexicographically() {
    let kf = keyframes_rule("fade", &[("to", "opacity: 1;"), ("from", "opacity: 0;")]);
    let out =
        process_keyframes_definition(NestedMap::new(), &kf, &Vec::new(), "", "main.rcss").unwrap();
    let css = css_map_to_string(&StrMap::new(), &out, &Vec::new(), &NestedMap::new(), true);
    let expected = "@keyframes fade {\n    from {\n        opacity: 0;\n    }\n\n    to {\n        opacity: 1;\n    }\n\n}\n\n";
    assert_eq!(css, expected);
}

fn import_statement(segments: &[&str]) -> Node {
    node(
        NodeKind::ImportStatement,
        "",
        segments.iter().map(|s| leaf(NodeKind::Identifier, s)).collect(),
    )
}

#[test]
fn importing_twice_resolves_like_importing_once() {
    let mut cache = ProjectCache::new();
    let imported = collect_variable(Vec::new(), &var_decl("primary", "\"blue\""));
    cache.set("root/lib.rcss", imported);

    let once = process_import_statement(
        Vec::new(),
        &cache,
        &import_statement(&["lib"]),
        "",
        "main.rcss",
        "root",
    )
    .unwrap();
    let twice = process_import_statement(
        rcss::clone_meta_vec(&once),
        &cache,
        &import_statement(&["lib"]),
        "",
        "main.rcss",
        "root",
    )
    .unwrap();

    let probe = ref_decl("color: &primary;", "&primary");
    let r1 = resolve_declaration(&probe, &once, "", "main.rcss").unwrap();
    let r2 = resolve_declaration(&probe, &twice, "", "main.rcss").unwrap();
    assert_eq!(r1, r2);
    assert_eq!(r1, "color: blue;");
}

#[test]
fn wildcard_segment_is_ignored_in_import_paths() {
    let mut cache = ProjectCache::new();
    cache.set("root/styles/lib.rcss", Vec::new());
    let ok = process_import_statement(
        Vec::new(),
        &cache,
        &import_statement(&["styles", "lib", "*"]),
        "",
        "main.rcss",
        "root",
    );
    assert!(ok.is_ok());
}

#[test]
fn missing_import_is_an_import_error_with_the_path() {
    let cache = ProjectCache::new();
    let err = process_import_statement(
        Vec::new(),
        &cache,
        &import_statement(&["nope"]),
        "",
        "main.rcss",
        "root",
    )
    .unwrap_err();
    match err {
        RCSSError::ImportError { import_path, message, .. } => {
            assert_eq!(import_path, "root/nope.rcss");
            assert_eq!(message, "File not found");
        }
        other => panic!("wrong error kind: {:?}", other),
    }
}

#[test]
fn media_query_gets_its_own_top_level_block() {
    let mq = node(
        NodeKind::MediaQuery,
        "",
        vec![
            leaf(NodeKind::MediaCondition, "(max-width: 600px)"),
            node(
                NodeKind::RuleNormal,
                "",
                vec![
                    leaf(NodeKind::Selector, ".box"),
                    plain_decl("color: red;"),
                    leaf(NodeKind::RightCurlyBrace, "}"),
                ],
            ),
        ],
    );
    let out = process_media_query(NestedMap::new(), &mq, &Vec::new(), "", "main.rcss").unwrap();
    let css = css_map_to_string(&StrMap::new(), &NestedMap::new(), &Vec::new(), &out, true);
    let expected =
        "@media (max-width: 600px) {\n    .box {\n        color: red;\n    }\n}\n";
    assert_eq!(css, expected);
}

#[test]
fn modes_differ_only_in_whitespace() {
    let mut decls = StrMap::new();
    decls.push_value(".box", "color: blue;".to_string());
    decls.push_value(".box", "margin: 0".to_string());
    let human = css_map_to_string(&decls, &NestedMap::new(), &Vec::new(), &NestedMap::new(), true);
    let compact =
        css_map_to_string(&decls, &NestedMap::new(), &Vec::new(), &NestedMap::new(), false);
    let strip = |s: &str| s.chars().filter(|c| !c.is_whitespace()).collect::<String>();
    assert_eq!(strip(&human), strip(&compact));
    assert_eq!(compact, ".box{color: blue;margin: 0;}");
}

#[test]
fn flat_file_round_trips_through_the_emitter() {
    // no variables, macros, imports or nesting: output is the direct
    // flattening of the declarations, sorted for determinism
    let rule = node(
        NodeKind::RuleNormal,
        "",
        vec![
            leaf(NodeKind::Selector, ".box"),
            plain_decl("margin: 0;"),
            plain_decl("color: blue;"),
            leaf(NodeKind::RightCurlyBrace, "}"),
        ],
    );
    let out = process_rule_normal(&Vec::new(), StrMap::new(), &rule, "", "main.rcss").unwrap();
    let css = css_map_to_string(&out, &NestedMap::new(), &Vec::new(), &NestedMap::new(), true);
    assert_eq!(css, ".box {\n    color: blue;\n    margin: 0;\n}\n\n");
}

#[test]
fn end_to_end_example_compiles_as_documented() {
    // $primary: "blue"; .box { color: &primary; &:hover { color: "red"; } }
    let nodes = vec![
        var_decl("primary", "\"blue\""),
        node(
            NodeKind::RuleNormal,
            "",
            vec![
                leaf(NodeKind::Selector, ".box"),
                ref_decl("color: &primary;", "&primary"),
                leaf(NodeKind::Selector, "&:hover"),
                plain_decl("color: red;"),
                leaf(NodeKind::RightCurlyBrace, "}"),
                leaf(NodeKind::RightCurlyBrace, "}"),
            ],
        ),
    ];
    let mut cache = ProjectCache::new();
    let css = compile(&nodes, "", "main.rcss", "root", &mut cache, true, false)
        .unwrap()
        .unwrap();
    assert_eq!(css, ".box {\n    color: blue;\n}\n\n.box:hover {\n    color: red;\n}\n\n");
}

#[test]
fn initial_pass_harvests_metadata_without_output() {
    let nodes = vec![var_decl("primary", "\"blue\"")];
    let mut cache = ProjectCache::new();
    let out = compile(&nodes, "", "lib.rcss", "root", &mut cache, true, true).unwrap();
    assert!(out.is_none());
    assert!(cache.get("lib.rcss").is_some());
}

#[test]
fn failed_compile_leaves_the_cache_untouched() {
    let good = vec![var_decl("primary", "\"blue\"")];
    let mut cache = ProjectCache::new();
    compile(&good, "", "main.rcss", "root", &mut cache, true, true).unwrap();
    let before = cache.get("main.rcss").unwrap().len();

    let bad = vec![node(
        NodeKind::RuleNormal,
        "",
        vec![
            leaf(NodeKind::Selector, ".box"),
            ref_decl("color: &missing;", "&missing"),
            leaf(NodeKind::RightCurlyBrace, "}"),
        ],
    )];
    assert!(compile(&bad, "", "main.rcss", "root", &mut cache, true, false).is_err());
    assert_eq!(cache.get("main.rcss").unwrap().len(), before);
}

#[test]
fn one_liners_lead_the_output() {
    let mut decls = StrMap::new();
    decls.push_value("a", "color: red;".to_string());
    let one_liners = vec!["@import url(base.css);".to_string()];
    let css = css_map_to_string(&decls, &NestedMap::new(), &one_liners, &NestedMap::new(), true);
    assert_eq!(css, "@import url(base.css);\n\na {\n    color: red;\n}\n\n");
}

#[test]
fn generate_css_keeps_map_order_and_adds_semicolons() {
    let mut m = StrMap::new();
    m.push_value("b", "color: red".to_string());
    m.push_value("a", "margin: 0;".to_string());
    let human = generate_css(&m, true);
    assert_eq!(human, "b {\n    color: red;\n}a {\n    margin: 0;\n}");
    let compact = generate_css(&m, false);
    assert_eq!(compact, "b{color: red;}a{margin: 0;}");
}

#[test]
fn empty_file_compiles_to_empty_output() {
    let mut cache = ProjectCache::new();
    let css = compile(&Vec::new(), "", "empty.rcss", "root", &mut cache, true, false)
        .unwrap()
        .unwrap();
    assert_eq!(css, "");
}

#[test]
fn repeated_selector_accumulates_declarations() {
    let rule_a = node(
        NodeKind::RuleNormal,
        "",
        vec![
            leaf(NodeKind::Selector, ".box"),
            plain_decl("color: red;"),
            leaf(NodeKind::RightCurlyBrace, "}"),
        ],
    );
    let rule_b = node(
        NodeKind::RuleNormal,
        "",
        vec![
            leaf(NodeKind::Selector, ".box"),
            plain_decl("margin: 0;"),
            leaf(NodeKind::RightCurlyBrace, "}"),
        ],
    );
    let out = process_rule_normal(&Vec::new(), StrMap::new(), &rule_a, "", "main.rcss").unwrap();
    let out = process_rule_normal(&Vec::new(), out, &rule_b, "", "main.rcss").unwrap();
    assert_eq!(
        decls_for(&out, ".box"),
        vec!["color: red;".to_string(), "margin: 0;".to_string()]
    );
}

#[test]
fn import_carries_variables_across_files() {
    // first pass harvests lib.rcss; the second pass of main.rcss imports it
    let lib_nodes = vec![var_decl("primary", "\"blue\"")];
    let main_nodes = vec![
        import_statement(&["lib"]),
        node(
            NodeKind::RuleNormal,
            "",
            vec![
                leaf(NodeKind::Selector, ".box"),
                ref_decl("color: &primary;", "&primary"),
                leaf(NodeKind::RightCurlyBrace, "}"),
            ],
        ),
    ];
    let mut cache = ProjectCache::new();
    compile(&lib_nodes, "", "root/lib.rcss", "root", &mut cache, true, true).unwrap();
    let css = compile(&main_nodes, "", "root/main.rcss", "root", &mut cache, true, false)
        .unwrap()
        .unwrap();
    assert_eq!(css, ".box {\n    color: blue;\n}\n\n");
}

#[test]
fn keyframe_declarations_resolve_variables() {
    let meta = collect_variable(Vec::new(), &var_decl("fade-to", "\"0.5\""));
    let kf = node(
        NodeKind::KeyframesRule,
        "",
        vec![
            leaf(NodeKind::KeyframesName, "fade"),
            node(
                NodeKind::KeyframeSelectorBlock,
                "",
                vec![
                    leaf(NodeKind::KeyframeSelector, "to"),
                    ref_decl("opacity: &fade-to;", "&fade-to"),
                    leaf(NodeKind::RightCurlyBrace, "}"),
                ],
            ),
        ],
    );
    let out = process_keyframes_definition(NestedMap::new(), &kf, &meta, "", "main.rcss").unwrap();
    let css = css_map_to_string(&StrMap::new(), &out, &Vec::new(), &NestedMap::new(), true);
    assert_eq!(css, "@keyframes fade {\n    to {\n        opacity: 0.5;\n    }\n\n}\n\n");
}
