use superfilter::expr::{ExprArena, Expression};
use superfilter::parse::parse_value;
use superfilter::render::RenderConfig;
use superfilter::transform::compile_tree;
use superfilter::value::{ExpressionValue, ScalarValue};
use superfilter::LINE_END;

fn cfg(pretty: bool, line_ending: &str) -> RenderConfig {
    RenderConfig {
        pretty,
        indent_str: "    ".to_string(),
        base_path: String::new(),
        line_ending: line_ending.to_string(),
        comments: false,
    }
}

fn compile_lit(v: ExpressionValue) -> String {
    let mut pool = ExprArena::new();
    let l = pool.push(Expression::Lit(v));
    let root = pool.push(Expression::Block(vec![l]));
    compile_tree(&pool, root, &cfg(false, "\n")).unwrap()
}

#[test]
fn string_with_space_is_quoted() {
    assert_eq!(compile_lit(ExpressionValue::Str("hello world".to_string())), "\"hello world\"\n");
}

#[test]
fn string_without_space_is_bare() {
    assert_eq!(compile_lit(ExpressionValue::Str("hello".to_string())), "hello\n");
}

#[test]
fn default_line_end_is_newline() {
    assert_eq!(LINE_END, "\n");
}

#[test]
fn literal_round_trip_reparses_to_equal_value() {
    // transform + render + re-parse gives back the starting value
    for s in ["hello world", "hello", "Leather Belt", "x"] {
        let line = compile_lit(ExpressionValue::Str(s.to_string()));
        let token = line.trim_end_matches('\n');
        match parse_value(token) {
            Some(ExpressionValue::Str(back)) => assert_eq!(back, s),
            other => panic!("round trip failed for {:?}: {:?}", s, other),
        }
    }
    for n in [0i64, 5, -5, 1234567890123456789, i64::MAX, i64::MIN] {
        let line = compile_lit(ExpressionValue::Num(n));
        let token = line.trim_end_matches('\n');
        match parse_value(token) {
            Some(ExpressionValue::Num(back)) => assert_eq!(back, n),
            other => panic!("round trip failed for {}: {:?}", n, other),
        }
    }
}

#[test]
fn parse_value_rejects_stray_quote_and_overflow() {
    assert!(parse_value("ab\"cd").is_none());
    assert!(parse_value("9223372036854775808").is_none());
    match parse_value("-9223372036854775808") {
        Some(ExpressionValue::Num(n)) => assert_eq!(n, i64::MIN),
        other => panic!("expected i64::MIN, got {:?}", other),
    }
}

fn nested_tree() -> (ExprArena, usize) {
    let mut pool = ExprArena::new();
    let show = pool.push(Expression::Lit(ExpressionValue::Str("Show".to_string())));
    let cond = pool.push(Expression::Lit(ExpressionValue::Block(vec![
        ScalarValue::Str("BaseType".to_string()),
        ScalarValue::Str("Leather Belt".to_string()),
    ])));
    let rule = pool.push(Expression::Block(vec![cond]));
    let root = pool.push(Expression::Block(vec![show, rule]));
    (pool, root)
}

#[test]
fn line_endings_change_only_terminators() {
    let (pool, root) = nested_tree();
    let lf = compile_tree(&pool, root, &cfg(true, "\n")).unwrap();
    let crlf = compile_tree(&pool, root, &cfg(true, "\r\n")).unwrap();
    assert_eq!(lf.replace('\n', "\r\n"), crlf);
    let lf_lines: Vec<&str> = lf.split('\n').collect();
    let crlf_lines: Vec<&str> = crlf.split("\r\n").collect();
    assert_eq!(lf_lines, crlf_lines);
}

#[test]
fn pretty_and_compact_have_equal_content() {
    let (pool, root) = nested_tree();
    let pretty = compile_tree(&pool, root, &cfg(true, "\n")).unwrap();
    let compact = compile_tree(&pool, root, &cfg(false, "\n")).unwrap();
    assert_ne!(pretty, compact);
    let p: Vec<&str> = pretty.lines().map(|l| l.trim_start_matches(' ')).collect();
    let c: Vec<&str> = compact.lines().collect();
    assert_eq!(p, c);
}

#[test]
fn pretty_indents_nested_blocks() {
    let (pool, root) = nested_tree();
    let pretty = compile_tree(&pool, root, &cfg(true, "\n")).unwrap();
    assert_eq!(pretty, "Show\n    BaseType \"Leather Belt\"\n");
}

#[test]
fn value_kind_names_match_diagnostics() {
    assert_eq!(ExpressionValue::Str(String::new()).kind_name(), "String");
    assert_eq!(ExpressionValue::Num(0).kind_name(), "Number");
    assert_eq!(ExpressionValue::Color(0, 0, 0).kind_name(), "Color");
    assert_eq!(ExpressionValue::Block(vec![]).kind_name(), "Block");
}
