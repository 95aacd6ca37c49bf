use tree_sexp::{dump_sexp, to_sexp, SExp, SynNode};

/// Builds the library's tree from a parser cursor positioned at a node.
fn convert(cursor: &mut tree_sitter::TreeCursor) -> SynNode {
    let node = cursor.node();
    let field_name = cursor.field_name().map(|f| f.as_bytes().to_vec());
    let mut children = Vec::new();
    if cursor.goto_first_child() {
        loop {
            children.push(convert(cursor));
            if !cursor.goto_next_sibling() {
                break;
            }
        }
        cursor.goto_parent();
    }
    SynNode {
        is_named: node.is_named(),
        kind: node.kind().as_bytes().to_vec(),
        field_name,
        start_byte: node.start_byte(),
        end_byte: node.end_byte(),
        children,
    }
}

fn parse(source: &str) -> SynNode {
    let mut parser = tree_sitter::Parser::new();
    let language: tree_sitter::Language = tree_sitter_javascript::LANGUAGE.into();
    parser.set_language(&language).expect("the grammar loads");
    let tree = parser.parse(source, None).expect("parsing succeeds");
    let mut cursor = tree.walk();
    convert(&mut cursor)
}

fn count_kinds(e: &SExp) -> usize {
    match e {
        SExp::Kind(_) => 1,
        SExp::List(es) => es.iter().map(count_kinds).sum(),
        _ => 0,
    }
}

fn count_named(n: &SynNode) -> usize {
    let own = if n.is_named { 1 } else { 0 };
    own + n.children.iter().map(count_named).sum::<usize>()
}

fn contains_token(e: &SExp) -> bool {
    match e {
        SExp::Token => true,
        SExp::List(es) => es.iter().any(contains_token),
        _ => false,
    }
}

fn collect_values(e: &SExp, out: &mut Vec<Vec<u8>>) {
    match e {
        SExp::Value(b) => out.push(b.clone()),
        SExp::List(es) => {
            for x in es {
                collect_values(x, out);
            }
        }
        _ => {}
    }
}

#[test]
fn parsed_call_expression() {
    let src = "add(x, y)";
    let tree = parse(src);
    let result = to_sexp(src.as_bytes(), &tree);
    assert_eq!(count_kinds(&result), count_named(&tree));
    assert!(!contains_token(&result));
    let mut values = Vec::new();
    collect_values(&result, &mut values);
    assert!(values.contains(&b"add".to_vec()));
    assert!(values.contains(&b"x".to_vec()));
    assert!(values.contains(&b"y".to_vec()));
}

#[test]
fn parsed_incomplete_input_terminates() {
    let src = "function add(x, y)";
    let tree = parse(src);
    let result = to_sexp(src.as_bytes(), &tree);
    assert!(!contains_token(&result));
    assert_eq!(count_kinds(&result), count_named(&tree));
}

#[test]
fn parsed_pretty_print_brackets_balance() {
    let src = "function add(x, y) { return x + y }";
    let tree = parse(src);
    let out = dump_sexp(src.as_bytes(), &tree);
    let text = String::from_utf8(out).expect("rendered text is valid");
    assert!(text.starts_with("(program"));
    let opens = text.bytes().filter(|b| *b == b'(').count();
    let closes = text.bytes().filter(|b| *b == b')').count();
    // The two bracket leaves of the source contribute one of each too.
    assert_eq!(opens, closes);
}
