use hygiene_resolve::ast::{Expr, Ident, SourceUnit, Stmt};
use hygiene_resolve::parse::{classify, line_at, parse, parse_error_at, report, ParseErrorKind, SwcErrorClass};
use hygiene_resolve::registry::{ContextRegistry, Mark};
use hygiene_resolve::scope::ResolutionError;
use hygiene_resolve::resolver::resolve;

fn import(names: &[&str], source: &str) -> Stmt {
    Stmt::Import { specifiers: names.iter().map(|n| Ident::new(n)).collect(), source: source.to_string() }
}

fn constant(name: &str, init: Expr) -> Stmt {
    Stmt::Const { name: Ident::new(name), init }
}

fn reference(name: &str) -> Expr {
    Expr::Ref(Ident::new(name))
}

fn block(body: Vec<Stmt>) -> Stmt {
    Stmt::Block { body, scope: None }
}

fn arrow(params: &[&str], body: Vec<Stmt>) -> Expr {
    Expr::Arrow { params: params.iter().map(|n| Ident::new(n)).collect(), body, scope: None }
}

fn unit(body: Vec<Stmt>) -> SourceUnit {
    SourceUnit { body, scope: None }
}

fn import_tag(s: &Stmt, k: usize) -> Vec<Mark> {
    match s {
        Stmt::Import { specifiers, .. } => specifiers[k].tag.clone(),
        _ => panic!("not an import"),
    }
}

fn const_tag(s: &Stmt) -> Vec<Mark> {
    match s {
        Stmt::Const { name, .. } => name.tag.clone(),
        _ => panic!("not a const"),
    }
}

fn ref_tag(s: &Stmt) -> Vec<Mark> {
    match s {
        Stmt::Expr(Expr::Ref(i)) => i.tag.clone(),
        _ => panic!("not a reference"),
    }
}

fn block_body(s: &Stmt) -> &Vec<Stmt> {
    match s {
        Stmt::Block { body, .. } => body,
        _ => panic!("not a block"),
    }
}

#[test]
fn it_works() {
    let input = "
import {foo} from 'bar';

{
  const foo = () => {};
}
";
    assert!(parse(input).is_ok());
    let tree = unit(vec![import(&["foo"], "bar"), block(vec![constant("foo", arrow(&[], vec![]))])]);
    let mut reg = ContextRegistry::new();
    let resolved = resolve(&tree, &mut reg).unwrap();
    let imported = import_tag(&resolved.body[0], 0);
    let local = const_tag(&block_body(&resolved.body[1])[0]);
    assert!(imported != local);
}

#[test]
fn import_and_block_const_differ_and_references_match() {
    let tree = unit(vec![
        import(&["foo"], "bar"),
        Stmt::Expr(reference("foo")),
        block(vec![constant("foo", arrow(&[], vec![])), Stmt::Expr(reference("foo"))]),
    ]);
    let mut reg = ContextRegistry::new();
    let r = resolve(&tree, &mut reg).unwrap();
    let imported = import_tag(&r.body[0], 0);
    let inner = block_body(&r.body[2]);
    let local = const_tag(&inner[0]);
    assert!(!imported.is_empty());
    assert!(!local.is_empty());
    assert_ne!(imported, local);
    assert_eq!(ref_tag(&r.body[1]), imported);
    assert_eq!(ref_tag(&inner[1]), local);
}

#[test]
fn inner_declaration_shadows_outer() {
    let tree = unit(vec![
        constant("x", Expr::Number(1)),
        block(vec![constant("x", Expr::Number(2)), Stmt::Expr(reference("x"))]),
    ]);
    let mut reg = ContextRegistry::new();
    let r = resolve(&tree, &mut reg).unwrap();
    let outer = const_tag(&r.body[0]);
    let inner = block_body(&r.body[1]);
    assert_eq!(ref_tag(&inner[1]), const_tag(&inner[0]));
    assert_ne!(ref_tag(&inner[1]), outer);
}

#[test]
fn undeclared_reference_is_free() {
    let tree = unit(vec![Stmt::Expr(reference("y"))]);
    let mut reg = ContextRegistry::new();
    let r = resolve(&tree, &mut reg).unwrap();
    assert!(ref_tag(&r.body[0]).is_empty());
}

#[test]
fn free_reference_differs_from_binding_of_same_name() {
    let tree = unit(vec![
        Stmt::Expr(reference("y")),
        block(vec![constant("y", Expr::Number(3))]),
    ]);
    let mut reg = ContextRegistry::new();
    let r = resolve(&tree, &mut reg).unwrap();
    assert!(ref_tag(&r.body[0]).is_empty());
    assert_ne!(ref_tag(&r.body[0]), const_tag(&block_body(&r.body[1])[0]));
}

#[test]
fn sibling_blocks_get_distinct_tags() {
    let tree = unit(vec![
        block(vec![constant("a", Expr::Number(1))]),
        block(vec![constant("a", Expr::Number(2))]),
    ]);
    let mut reg = ContextRegistry::new();
    let r = resolve(&tree, &mut reg).unwrap();
    assert_ne!(const_tag(&block_body(&r.body[0])[0]), const_tag(&block_body(&r.body[1])[0]));
}

#[test]
fn arrow_parameters_bind_in_the_arrow() {
    let tree = unit(vec![
        constant("p", Expr::Number(0)),
        Stmt::Expr(arrow(&["p"], vec![Stmt::Expr(reference("p"))])),
    ]);
    let mut reg = ContextRegistry::new();
    let r = resolve(&tree, &mut reg).unwrap();
    match &r.body[1] {
        Stmt::Expr(Expr::Arrow { params, body, scope }) => {
            assert_eq!(params[0].tag, vec![scope.unwrap()]);
            assert_eq!(ref_tag(&body[0]), params[0].tag);
            assert_ne!(params[0].tag, const_tag(&r.body[0]));
        }
        _ => panic!("not an arrow"),
    }
}

#[test]
fn const_is_visible_in_its_own_initializer() {
    let tree = unit(vec![constant("f", arrow(&[], vec![Stmt::Expr(reference("f"))]))]);
    let mut reg = ContextRegistry::new();
    let r = resolve(&tree, &mut reg).unwrap();
    match &r.body[0] {
        Stmt::Const { name, init: Expr::Arrow { body, .. } } => {
            assert_eq!(ref_tag(&body[0]), name.tag);
        }
        _ => panic!("not a const arrow"),
    }
}

#[test]
fn every_binding_tagged_with_its_region_mark() {
    let tree = unit(vec![import(&["a", "b"], "m"), constant("c", reference("a"))]);
    let mut reg = ContextRegistry::new();
    let r = resolve(&tree, &mut reg).unwrap();
    let m = r.scope.unwrap();
    assert_eq!(m, Mark { generation: 0, index: 0 });
    assert_eq!(import_tag(&r.body[0], 0), vec![m]);
    assert_eq!(import_tag(&r.body[0], 1), vec![m]);
    assert_eq!(const_tag(&r.body[1]), vec![m]);
    match &r.body[1] {
        Stmt::Const { init: Expr::Ref(i), .. } => assert_eq!(i.tag, vec![m]),
        _ => panic!("not a const"),
    }
}

#[test]
fn duplicate_binding_in_one_region_is_refused() {
    let tree = unit(vec![constant("x", Expr::Number(1)), constant("x", Expr::Number(2))]);
    let mut reg = ContextRegistry::new();
    assert_eq!(resolve(&tree, &mut reg).unwrap_err(), ResolutionError::DuplicateBinding);
    let tree = unit(vec![import(&["x", "x"], "m")]);
    assert_eq!(resolve(&tree, &mut reg).unwrap_err(), ResolutionError::DuplicateBinding);
}

#[test]
fn exhausted_registry_is_reported() {
    let tree = unit(vec![block(vec![])]);
    let mut reg = ContextRegistry::starting_at(0, u64::MAX - 1);
    assert_eq!(resolve(&tree, &mut reg).unwrap_err(), ResolutionError::MarksExhausted);
}

#[test]
fn fresh_registry_marks_never_collide_with_earlier_ones() {
    let tree = unit(vec![constant("x", Expr::Number(1)), block(vec![constant("x", reference("x"))])]);
    let mut reg = ContextRegistry::new();
    let first = resolve(&tree, &mut reg).unwrap();
    reg.reset();
    let second = resolve(&first, &mut reg).unwrap();
    let before = [const_tag(&first.body[0]), const_tag(&block_body(&first.body[1])[0])];
    let after = [const_tag(&second.body[0]), const_tag(&block_body(&second.body[1])[0])];
    for a in after.iter() {
        for b in before.iter() {
            assert_ne!(a, b);
        }
    }
    assert_eq!(second.scope.unwrap(), Mark { generation: 1, index: 0 });
}

#[test]
fn registry_hands_out_distinct_marks() {
    let mut reg = ContextRegistry::new();
    let a = reg.allocate_mark();
    let b = reg.allocate_mark();
    assert_ne!(a, b);
    assert_eq!(b, Mark { generation: 0, index: 1 });
}

#[test]
fn malformed_const_is_invalid_syntax() {
    let e = parse("const = ;").unwrap_err();
    assert_eq!(e.kind, ParseErrorKind::InvalidSyntax);
    assert!(e.position <= 6);
    assert_eq!(e.line, 1);
}

#[test]
fn truncated_input_is_unexpected_end() {
    let e = parse("export").unwrap_err();
    assert_eq!(e.kind, ParseErrorKind::UnexpectedEof);
    assert_eq!(e.position, 6);
}

#[test]
fn stray_character_is_unexpected_token() {
    let parsed = parse("let a = 1 \u{a4} 2;").unwrap();
    let e = parsed.diagnostics[0];
    assert_eq!(e.kind, ParseErrorKind::UnexpectedToken);
    assert_eq!(e.position, 10);
    assert_eq!(e.line, 1);
}

#[test]
fn valid_snippets_parse() {
    assert!(parse("const x = 1; { const x = 2; x; }").is_ok());
    assert!(parse("y;").is_ok());
}

#[test]
fn error_position_is_relative_to_the_file() {
    let e = parse_error_at("ab\ncd\nef", ParseErrorKind::UnexpectedToken, 5, 1);
    assert_eq!(e.position, 4);
    assert_eq!(e.line, 2);
    assert_eq!(e.kind, ParseErrorKind::UnexpectedToken);
    let e = parse_error_at("ab", ParseErrorKind::InvalidSyntax, 0, 1);
    assert_eq!(e.position, 0);
    assert_eq!(e.line, 1);
}

#[test]
fn error_classes_map_to_kinds() {
    assert_eq!(classify(SwcErrorClass::Eof), ParseErrorKind::UnexpectedEof);
    assert_eq!(classify(SwcErrorClass::UnexpectedChar), ParseErrorKind::UnexpectedToken);
    assert_eq!(classify(SwcErrorClass::UnexpectedTokenWithSuggestions), ParseErrorKind::UnexpectedToken);
    assert_eq!(classify(SwcErrorClass::Expected), ParseErrorKind::UnexpectedToken);
    assert_eq!(classify(SwcErrorClass::UnterminatedStrLit), ParseErrorKind::Lexical);
    assert_eq!(classify(SwcErrorClass::InvalidStrEscape), ParseErrorKind::Lexical);
    assert_eq!(classify(SwcErrorClass::Other), ParseErrorKind::InvalidSyntax);
}

#[test]
fn lines_count_line_feeds_before_the_offset() {
    assert_eq!(line_at("", 0), 1);
    assert_eq!(line_at("a\nb\nc", 1), 1);
    assert_eq!(line_at("a\nb\nc", 2), 2);
    assert_eq!(line_at("a\nb\nc", 4), 3);
    assert_eq!(line_at("a\nb", 100), 2);
}

#[test]
fn report_combines_class_offset_and_line() {
    let e = report("x\n  y", (SwcErrorClass::Eof, 5), 1);
    assert_eq!(e.kind, ParseErrorKind::UnexpectedEof);
    assert_eq!(e.position, 4);
    assert_eq!(e.line, 2);
}

#[test]
fn error_line_follows_line_breaks() {
    let e = parse("const a = 1;\nconst = ;").unwrap_err();
    assert_eq!(e.kind, ParseErrorKind::InvalidSyntax);
    assert_eq!(e.line, 2);
    assert_eq!(e.position, 19);
}

#[test]
fn recovered_errors_come_back_with_the_tree() {
    let parsed = parse("let a = 010;").unwrap();
    assert!(!parsed.diagnostics.is_empty());
    assert_eq!(parsed.diagnostics[0].line, 1);
}

#[test]
fn clean_input_has_no_diagnostics() {
    let parsed = parse("import {foo} from 'bar'; { const foo = () => {}; }").unwrap();
    assert!(parsed.diagnostics.is_empty());
}

#[test]
fn unterminated_string_is_lexical() {
    let e = match parse("let s = 'abc") {
        Err(e) => e,
        Ok(p) => p.diagnostics[0],
    };
    assert_eq!(e.kind, ParseErrorKind::Lexical);
    assert_eq!(e.line, 1);
}

#[test]
fn reference_before_declaration_sees_the_binding() {
    let tree = unit(vec![Stmt::Expr(reference("x")), constant("x", Expr::Number(1))]);
    let mut reg = ContextRegistry::new();
    let r = resolve(&tree, &mut reg).unwrap();
    assert!(!ref_tag(&r.body[0]).is_empty());
    assert_eq!(ref_tag(&r.body[0]), const_tag(&r.body[1]));
}

#[test]
fn block_binding_is_visible_in_the_whole_block() {
    let tree = unit(vec![
        constant("x", Expr::Number(1)),
        block(vec![Stmt::Expr(reference("x")), constant("x", Expr::Number(2))]),
    ]);
    let mut reg = ContextRegistry::new();
    let r = resolve(&tree, &mut reg).unwrap();
    let inner = block_body(&r.body[1]);
    assert_eq!(ref_tag(&inner[0]), const_tag(&inner[1]));
    assert_ne!(ref_tag(&inner[0]), const_tag(&r.body[0]));
}

#[test]
fn byte_order_mark_counts_in_positions() {
    let e = parse("\u{feff}const = ;").unwrap_err();
    assert_eq!(e.kind, ParseErrorKind::InvalidSyntax);
    assert_eq!(e.position, 9);
    let e = parse_error_at("\u{feff}ab", ParseErrorKind::InvalidSyntax, 2, 1);
    assert_eq!(e.position, 4);
}

#[test]
fn calls_members_and_operators_resolve_their_references() {
    let call = Expr::Call {
        callee: Box::new(Expr::Member { object: Box::new(reference("console")), property: "log".to_string() }),
        args: vec![Expr::Binary { op: "+".to_string(), left: Box::new(reference("a")), right: Box::new(Expr::Number(1)) }],
    };
    let tree = unit(vec![constant("a", Expr::Number(2)), Stmt::Expr(call)]);
    let mut reg = ContextRegistry::new();
    let r = resolve(&tree, &mut reg).unwrap();
    let a_tag = const_tag(&r.body[0]);
    match &r.body[1] {
        Stmt::Expr(Expr::Call { callee, args }) => {
            match &**callee {
                Expr::Member { object, property } => {
                    assert_eq!(property, "log");
                    match &**object {
                        Expr::Ref(i) => assert!(i.tag.is_empty()),
                        _ => panic!("not a reference"),
                    }
                }
                _ => panic!("not a member"),
            }
            match &args[0] {
                Expr::Binary { op, left, .. } => {
                    assert_eq!(op, "+");
                    match &**left {
                        Expr::Ref(i) => assert_eq!(i.tag, a_tag),
                        _ => panic!("not a reference"),
                    }
                }
                _ => panic!("not a binary"),
            }
        }
        _ => panic!("not a call"),
    }
}

#[test]
fn arrow_inside_call_argument_gets_its_own_region() {
    let call = Expr::Call { callee: Box::new(reference("f")), args: vec![arrow(&["f"], vec![Stmt::Expr(reference("f"))])] };
    let tree = unit(vec![constant("f", Expr::Number(0)), Stmt::Expr(call)]);
    let mut reg = ContextRegistry::new();
    let r = resolve(&tree, &mut reg).unwrap();
    let outer = const_tag(&r.body[0]);
    match &r.body[1] {
        Stmt::Expr(Expr::Call { callee, args }) => {
            match &**callee {
                Expr::Ref(i) => assert_eq!(i.tag, outer),
                _ => panic!("not a reference"),
            }
            match &args[0] {
                Expr::Arrow { params, body, .. } => {
                    assert_ne!(params[0].tag, outer);
                    assert_eq!(ref_tag(&body[0]), params[0].tag);
                }
                _ => panic!("not an arrow"),
            }
        }
        _ => panic!("not a call"),
    }
}
