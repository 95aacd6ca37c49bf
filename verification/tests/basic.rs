use tree_sexp::{construct_list, dump_sexp, to_sexp, SExp, SynNode};

fn named(kind: &str, start: usize, end: usize, children: Vec<SynNode>) -> SynNode {
    SynNode {
        is_named: true,
        kind: kind.as_bytes().to_vec(),
        field_name: None,
        start_byte: start,
        end_byte: end,
        children,
    }
}

fn named_field(kind: &str, field: &str, start: usize, end: usize, children: Vec<SynNode>) -> SynNode {
    SynNode {
        is_named: true,
        kind: kind.as_bytes().to_vec(),
        field_name: Some(field.as_bytes().to_vec()),
        start_byte: start,
        end_byte: end,
        children,
    }
}

fn anon(kind: &str, start: usize, end: usize) -> SynNode {
    SynNode {
        is_named: false,
        kind: kind.as_bytes().to_vec(),
        field_name: None,
        start_byte: start,
        end_byte: end,
        children: Vec::new(),
    }
}

fn kind(s: &str) -> SExp {
    SExp::Kind(s.as_bytes().to_vec())
}

fn field(s: &str) -> SExp {
    SExp::Field(s.as_bytes().to_vec())
}

fn value(s: &str) -> SExp {
    SExp::Value(s.as_bytes().to_vec())
}

fn count_kinds(e: &SExp) -> usize {
    match e {
        SExp::Kind(_) => 1,
        SExp::List(es) => es.iter().map(count_kinds).sum(),
        _ => 0,
    }
}

fn count_named(n: &SynNode) -> usize {
    let own = if n.is_named { 1 } else { 0 };
    own + n.children.iter().map(count_named).sum::<usize>()
}

fn contains_token(e: &SExp) -> bool {
    match e {
        SExp::Token => true,
        SExp::List(es) => es.iter().any(contains_token),
        _ => false,
    }
}

fn fields_placed_ok(e: &SExp) -> bool {
    match e {
        SExp::List(es) => {
            for (i, x) in es.iter().enumerate() {
                if matches!(x, SExp::Field(_)) {
                    if i + 1 >= es.len() || !matches!(es[i + 1], SExp::List(_)) {
                        return false;
                    }
                }
            }
            es.iter().all(fields_placed_ok)
        }
        _ => true,
    }
}

fn collect_values(e: &SExp, out: &mut Vec<Vec<u8>>) {
    match e {
        SExp::Value(b) => out.push(b.clone()),
        SExp::List(es) => {
            for x in es {
                collect_values(x, out);
            }
        }
        _ => {}
    }
}

/// The tree a grammar-based parser builds for `add(x, y)`, rooted at the
/// call expression.
fn call_tree() -> SynNode {
    named("call_expression", 0, 9, vec![
        named_field("identifier", "function", 0, 3, vec![]),
        named_field("arguments", "arguments", 3, 9, vec![
            anon("(", 3, 4),
            named("identifier", 4, 5, vec![]),
            anon(",", 5, 6),
            named("identifier", 7, 8, vec![]),
            anon(")", 8, 9),
        ]),
    ])
}

const CALL_SRC: &str = "add(x, y)";

#[test]
fn call_expression_value() {
    let result = to_sexp(CALL_SRC.as_bytes(), &call_tree());
    let expected = SExp::List(vec![
        kind("call_expression"),
        field("function"),
        SExp::List(vec![kind("identifier"), value("add")]),
        field("arguments"),
        SExp::List(vec![
            kind("arguments"),
            value("("),
            SExp::List(vec![kind("identifier"), value("x")]),
            value(","),
            SExp::List(vec![kind("identifier"), value("y")]),
            value(")"),
        ]),
    ]);
    assert_eq!(result, expected);
}

#[test]
fn call_expression_pretty() {
    let out = dump_sexp(CALL_SRC.as_bytes(), &call_tree());
    let text = String::from_utf8(out).expect("rendered text is valid");
    let expected = "(call_expression\n  function: (identifier `add`)\n  arguments: (arguments `(`\n    (identifier `x`) `,`\n    (identifier `y`) `)`))";
    assert_eq!(text, expected);
}

/// Pretty output indents strictly deeper for deeper named nesting, and a
/// leaf value sits on the same line as its parent's opening bracket.
#[test]
fn pretty_indentation_grows_with_depth() {
    let out = dump_sexp(CALL_SRC.as_bytes(), &call_tree());
    let text = String::from_utf8(out).expect("rendered text is valid");
    let indents: Vec<usize> = text
        .lines()
        .map(|l| l.len() - l.trim_start().len())
        .collect();
    assert_eq!(indents, vec![0, 2, 2, 4, 4]);
    assert!(text.lines().next().unwrap().contains("(call_expression"));
    assert!(text.contains("(identifier `add`)"));
}

/// The tree for `function add(x, y) { return x + y }`.
fn function_tree() -> SynNode {
    named("program", 0, 35, vec![named("function_declaration", 0, 35, vec![
        anon("function", 0, 8),
        named_field("identifier", "name", 9, 12, vec![]),
        named_field("formal_parameters", "parameters", 12, 18, vec![
            anon("(", 12, 13),
            named("identifier", 13, 14, vec![]),
            anon(",", 14, 15),
            named("identifier", 16, 17, vec![]),
            anon(")", 17, 18),
        ]),
        named_field("statement_block", "body", 19, 35, vec![
            anon("{", 19, 20),
            named("return_statement", 21, 33, vec![
                anon("return", 21, 27),
                named("binary_expression", 28, 33, vec![
                    named_field("identifier", "left", 28, 29, vec![]),
                    anon("+", 30, 31),
                    named_field("identifier", "right", 32, 33, vec![]),
                ]),
            ]),
            anon("}", 34, 35),
        ]),
    ])])
}

const FUNCTION_SRC: &str = "function add(x, y) { return x + y }";

#[test]
fn function_declaration_value() {
    let result = to_sexp(FUNCTION_SRC.as_bytes(), &function_tree());
    let expected = SExp::List(vec![
        kind("program"),
        SExp::List(vec![
            kind("function_declaration"),
            value("function"),
            field("name"),
            SExp::List(vec![kind("identifier"), value("add")]),
            field("parameters"),
            SExp::List(vec![
                kind("formal_parameters"),
                value("("),
                SExp::List(vec![kind("identifier"), value("x")]),
                value(","),
                SExp::List(vec![kind("identifier"), value("y")]),
                value(")"),
            ]),
            field("body"),
            SExp::List(vec![
                kind("statement_block"),
                value("{"),
                SExp::List(vec![
                    kind("return_statement"),
                    value("return"),
                    SExp::List(vec![
                        kind("binary_expression"),
                        field("left"),
                        SExp::List(vec![kind("identifier"), value("x")]),
                        value("+"),
                        field("right"),
                        SExp::List(vec![kind("identifier"), value("y")]),
                    ]),
                ]),
                value("}"),
            ]),
        ]),
    ]);
    assert_eq!(result, expected);
}

/// An incomplete input still traverses: error nodes pass through like any
/// other kind.
#[test]
fn incomplete_input_passes_error_nodes_through() {
    let src = "function add(x, y)";
    let tree = named("program", 0, 18, vec![named("ERROR", 0, 18, vec![
        anon("function", 0, 8),
        named("identifier", 9, 12, vec![]),
        named_field("formal_parameters", "parameters", 12, 18, vec![
            anon("(", 12, 13),
            named("identifier", 13, 14, vec![]),
            anon(",", 14, 15),
            named("identifier", 16, 17, vec![]),
            anon(")", 17, 18),
        ]),
    ])]);
    let result = to_sexp(src.as_bytes(), &tree);
    let expected = SExp::List(vec![
        kind("program"),
        SExp::List(vec![
            kind("ERROR"),
            value("function"),
            SExp::List(vec![kind("identifier"), value("add")]),
            field("parameters"),
            SExp::List(vec![
                kind("formal_parameters"),
                value("("),
                SExp::List(vec![kind("identifier"), value("x")]),
                value(","),
                SExp::List(vec![kind("identifier"), value("y")]),
                value(")"),
            ]),
        ]),
    ]);
    assert_eq!(result, expected);
}

#[test]
fn kind_count_matches_named_count() {
    for (src, tree) in [(CALL_SRC, call_tree()), (FUNCTION_SRC, function_tree())] {
        let result = to_sexp(src.as_bytes(), &tree);
        assert_eq!(count_kinds(&result), count_named(&tree));
    }
}

#[test]
fn no_token_in_finished_value() {
    for (src, tree) in [(CALL_SRC, call_tree()), (FUNCTION_SRC, function_tree())] {
        let result = to_sexp(src.as_bytes(), &tree);
        assert!(!contains_token(&result));
    }
}

#[test]
fn values_are_exact_source_slices() {
    let result = to_sexp(CALL_SRC.as_bytes(), &call_tree());
    let mut values = Vec::new();
    collect_values(&result, &mut values);
    let expected: Vec<Vec<u8>> = ["add", "(", "x", ",", "y", ")"]
        .iter()
        .map(|s| s.as_bytes().to_vec())
        .collect();
    assert_eq!(values, expected);
}

/// A leaf whose range spans embedded whitespace keeps it byte for byte.
#[test]
fn value_keeps_embedded_whitespace() {
    let src = "\"a  b\"";
    let tree = named("string", 0, 6, vec![]);
    let result = to_sexp(src.as_bytes(), &tree);
    assert_eq!(result, SExp::List(vec![kind("string"), value("\"a  b\"")]));
}

/// A single retained entry is returned bare, with no singleton `List`
/// wrapper: an unnamed root around one named leaf collapses to that leaf's
/// own list.
#[test]
fn singleton_is_not_wrapped() {
    let src = "x";
    let mut root = named("fragment", 0, 1, vec![named("identifier", 0, 1, vec![])]);
    root.is_named = false;
    let result = to_sexp(src.as_bytes(), &root);
    assert_eq!(result, SExp::List(vec![kind("identifier"), value("x")]));
}

#[test]
fn field_always_precedes_its_element() {
    for (src, tree) in [(CALL_SRC, call_tree()), (FUNCTION_SRC, function_tree())] {
        let result = to_sexp(src.as_bytes(), &tree);
        assert!(fields_placed_ok(&result));
    }
}

#[test]
fn rendering_twice_is_identical() {
    let first = to_sexp(CALL_SRC.as_bytes(), &call_tree());
    let second = to_sexp(CALL_SRC.as_bytes(), &call_tree());
    assert_eq!(first, second);
    let d1 = dump_sexp(CALL_SRC.as_bytes(), &call_tree());
    let d2 = dump_sexp(CALL_SRC.as_bytes(), &call_tree());
    assert_eq!(d1, d2);
}

/// Several top-level named siblings under an unnamed root give a bare
/// multi-element list with no `Kind` wrapper.
#[test]
fn forest_stays_a_bare_list() {
    let src = "ab";
    let mut root = named("fragment", 0, 2, vec![
        named("identifier", 0, 1, vec![]),
        named("identifier", 1, 2, vec![]),
    ]);
    root.is_named = false;
    let result = to_sexp(src.as_bytes(), &root);
    let expected = SExp::List(vec![
        SExp::List(vec![kind("identifier"), value("a")]),
        SExp::List(vec![kind("identifier"), value("b")]),
    ]);
    assert_eq!(result, expected);
}

#[test]
fn construct_list_folds_region_in_order() {
    let mut stack = vec![
        kind("outer"),
        SExp::Token,
        kind("inner"),
        value("a"),
        value("b"),
    ];
    construct_list(&mut stack);
    assert_eq!(stack, vec![
        kind("outer"),
        SExp::List(vec![kind("inner"), value("a"), value("b")]),
    ]);
}

#[test]
fn construct_list_unwraps_single_entry() {
    let mut stack = vec![SExp::Token, value("only")];
    construct_list(&mut stack);
    assert_eq!(stack, vec![value("only")]);
}

/// A named leaf root renders as a bare `Kind` + `Value` pair inside one
/// list, never a nested singleton.
#[test]
fn named_leaf_root() {
    let src = "x";
    let tree = named("identifier", 0, 1, vec![]);
    let result = to_sexp(src.as_bytes(), &tree);
    assert_eq!(result, SExp::List(vec![kind("identifier"), value("x")]));
    let out = dump_sexp(src.as_bytes(), &tree);
    assert_eq!(String::from_utf8(out).unwrap(), "(identifier `x`)");
}
