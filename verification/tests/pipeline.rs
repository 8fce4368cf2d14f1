use superfilter::arena::TransformedArena;
use superfilter::expr::{BinOp, ExprArena, Expression, StringBox};
use superfilter::render::RenderConfig;
use superfilter::scope::ScopeArena;
use superfilter::transform::{
    compile_tree, transform, ArithKind, TransformErr, MIXIN_RECURSION_LIMIT,
};
use superfilter::value::{ExpressionValue, ScalarValue};

fn cfg(pretty: bool, line_ending: &str) -> RenderConfig {
    RenderConfig {
        pretty,
        indent_str: "    ".to_string(),
        base_path: String::new(),
        line_ending: line_ending.to_string(),
        comments: false,
    }
}

fn lit_num(pool: &mut ExprArena, n: i64) -> usize {
    pool.push(Expression::Lit(ExpressionValue::Num(n)))
}

fn lit_str(pool: &mut ExprArena, s: &str) -> usize {
    pool.push(Expression::Lit(ExpressionValue::Str(s.to_string())))
}

#[test]
fn literal_number_compiles_to_one_line() {
    let mut pool = ExprArena::new();
    let five = lit_num(&mut pool, 5);
    let root = pool.push(Expression::Block(vec![five]));
    let out = compile_tree(&pool, root, &cfg(false, "\n")).unwrap();
    assert_eq!(out, "5\n");
}

#[test]
fn variable_definition_and_reference() {
    let mut pool = ExprArena::new();
    let v = lit_num(&mut pool, 42);
    let def = pool.push(Expression::VarDef("answer".to_string(), v));
    let use_it = pool.push(Expression::Var("answer".to_string()));
    let root = pool.push(Expression::Block(vec![def, use_it]));
    let out = compile_tree(&pool, root, &cfg(false, "\n")).unwrap();
    assert_eq!(out, "42\n");
}

#[test]
fn missing_var_ref_carries_exact_name() {
    let mut pool = ExprArena::new();
    let use_it = pool.push(Expression::Var("nowhere".to_string()));
    let root = pool.push(Expression::Block(vec![use_it]));
    match compile_tree(&pool, root, &cfg(false, "\n")) {
        Err(TransformErr::MissingVarRef(name)) => assert_eq!(name, "nowhere"),
        other => panic!("expected MissingVarRef, got {:?}", other),
    }
}

#[test]
fn string_where_number_required_is_type_mismatch() {
    let mut pool = ExprArena::new();
    let v = lit_str(&mut pool, "text");
    let def = pool.push(Expression::VarDef("s".to_string(), v));
    let var = pool.push(Expression::Var("s".to_string()));
    let one = lit_num(&mut pool, 1);
    let op = pool.push(Expression::BinaryOp(BinOp::Add, var, one));
    let root = pool.push(Expression::Block(vec![def, op]));
    match compile_tree(&pool, root, &cfg(false, "\n")) {
        Err(TransformErr::TypeMismatch(expected, actual, name)) => {
            assert_eq!(expected, "Number");
            assert_eq!(actual, "String");
            assert_eq!(name, "s");
        },
        other => panic!("expected TypeMismatch, got {:?}", other),
    }
}

#[test]
fn division_by_literal_zero_is_arithmetic_error() {
    let mut pool = ExprArena::new();
    let a = lit_num(&mut pool, 7);
    let z = lit_num(&mut pool, 0);
    let op = pool.push(Expression::BinaryOp(BinOp::Div, a, z));
    let root = pool.push(Expression::Block(vec![op]));
    match compile_tree(&pool, root, &cfg(false, "\n")) {
        Err(TransformErr::ArithmeticError(ArithKind::DivByZero)) => {},
        other => panic!("expected DivByZero, got {:?}", other),
    }
}

#[test]
fn remainder_by_zero_is_arithmetic_error() {
    let mut pool = ExprArena::new();
    let a = lit_num(&mut pool, 7);
    let z = lit_num(&mut pool, 0);
    let op = pool.push(Expression::BinaryOp(BinOp::Mod, a, z));
    let root = pool.push(Expression::Block(vec![op]));
    assert!(matches!(
        compile_tree(&pool, root, &cfg(false, "\n")),
        Err(TransformErr::ArithmeticError(ArithKind::ModByZero))
    ));
}

#[test]
fn overflow_is_arithmetic_error_not_wraparound() {
    let mut pool = ExprArena::new();
    let a = lit_num(&mut pool, i64::MAX);
    let b = lit_num(&mut pool, 1);
    let op = pool.push(Expression::BinaryOp(BinOp::Add, a, b));
    let root = pool.push(Expression::Block(vec![op]));
    assert!(matches!(
        compile_tree(&pool, root, &cfg(false, "\n")),
        Err(TransformErr::ArithmeticError(ArithKind::Overflow))
    ));
}

#[test]
fn division_truncates_toward_zero() {
    for (a, b, expect) in [(7i64, 2i64, "3"), (-7, 2, "-3"), (7, -2, "-3"), (-7, -2, "3")] {
        let mut pool = ExprArena::new();
        let l = lit_num(&mut pool, a);
        let r = lit_num(&mut pool, b);
        let op = pool.push(Expression::BinaryOp(BinOp::Div, l, r));
        let root = pool.push(Expression::Block(vec![op]));
        let out = compile_tree(&pool, root, &cfg(false, "\n")).unwrap();
        assert_eq!(out, format!("{}\n", expect));
    }
}

#[test]
fn remainder_sign_follows_dividend() {
    for (a, b, expect) in [(7i64, 2i64, "1"), (-7, 2, "-1"), (7, -2, "1"), (-7, -2, "-1")] {
        let mut pool = ExprArena::new();
        let l = lit_num(&mut pool, a);
        let r = lit_num(&mut pool, b);
        let op = pool.push(Expression::BinaryOp(BinOp::Mod, l, r));
        let root = pool.push(Expression::Block(vec![op]));
        let out = compile_tree(&pool, root, &cfg(false, "\n")).unwrap();
        assert_eq!(out, format!("{}\n", expect));
    }
}

#[test]
fn arithmetic_expression_value() {
    let mut pool = ExprArena::new();
    let a = lit_num(&mut pool, 6);
    let b = lit_num(&mut pool, 7);
    let mul = pool.push(Expression::BinaryOp(BinOp::Mul, a, b));
    let c = lit_num(&mut pool, 2);
    let sub = pool.push(Expression::BinaryOp(BinOp::Sub, mul, c));
    let root = pool.push(Expression::Block(vec![sub]));
    let out = compile_tree(&pool, root, &cfg(false, "\n")).unwrap();
    assert_eq!(out, "40\n");
}

#[test]
fn mixin_expansion_uses_call_site_bindings() {
    // The mixin body's free variable resolves against the scope active
    // at the invocation site, not the definition site.
    let mut pool = ExprArena::new();
    let body_ref = pool.push(Expression::Var("x".to_string()));
    let def = pool.push(Expression::MixinDef("m".to_string(), vec![], vec![body_ref]));
    let one = lit_num(&mut pool, 2);
    let bind = pool.push(Expression::VarDef("x".to_string(), one));
    let call = pool.push(Expression::MixinCall("m".to_string(), vec![]));
    let root = pool.push(Expression::Block(vec![def, bind, call]));
    let out = compile_tree(&pool, root, &cfg(false, "\n")).unwrap();
    assert_eq!(out, "2\n");
}

#[test]
fn mixin_parameters_bind_arguments_in_order() {
    let mut pool = ExprArena::new();
    let pa = pool.push(Expression::Var("a".to_string()));
    let pb = pool.push(Expression::Var("b".to_string()));
    let def = pool.push(Expression::MixinDef(
        "pair".to_string(),
        vec!["a".to_string(), "b".to_string()],
        vec![pa, pb],
    ));
    let x = lit_num(&mut pool, 10);
    let y = lit_str(&mut pool, "low");
    let call = pool.push(Expression::MixinCall("pair".to_string(), vec![x, y]));
    let root = pool.push(Expression::Block(vec![def, call]));
    let out = compile_tree(&pool, root, &cfg(false, "\n")).unwrap();
    assert_eq!(out, "10\nlow\n");
}

#[test]
fn unknown_mixin_carries_name() {
    let mut pool = ExprArena::new();
    let call = pool.push(Expression::MixinCall("ghostly".to_string(), vec![]));
    let root = pool.push(Expression::Block(vec![call]));
    match compile_tree(&pool, root, &cfg(false, "\n")) {
        Err(TransformErr::UnknownMixin(name)) => assert_eq!(name, "ghostly"),
        other => panic!("expected UnknownMixin, got {:?}", other),
    }
}

#[test]
fn arity_mismatch_carries_declared_and_supplied_counts() {
    let mut pool = ExprArena::new();
    let pa = pool.push(Expression::Var("a".to_string()));
    let def = pool.push(Expression::MixinDef(
        "one".to_string(),
        vec!["a".to_string()],
        vec![pa],
    ));
    let x = lit_num(&mut pool, 1);
    let y = lit_num(&mut pool, 2);
    let call = pool.push(Expression::MixinCall("one".to_string(), vec![x, y]));
    let root = pool.push(Expression::Block(vec![def, call]));
    match compile_tree(&pool, root, &cfg(false, "\n")) {
        Err(TransformErr::ArityMismatch(name, declared, supplied)) => {
            assert_eq!(name, "one");
            assert_eq!(declared, 1);
            assert_eq!(supplied, 2);
        },
        other => panic!("expected ArityMismatch, got {:?}", other),
    }
}

#[test]
fn self_recursive_mixin_hits_recursion_limit() {
    let mut pool = ExprArena::new();
    let inner = pool.push(Expression::MixinCall("loopy".to_string(), vec![]));
    let def = pool.push(Expression::MixinDef("loopy".to_string(), vec![], vec![inner]));
    let call = pool.push(Expression::MixinCall("loopy".to_string(), vec![]));
    let root = pool.push(Expression::Block(vec![def, call]));
    assert!(MIXIN_RECURSION_LIMIT > 0);
    assert!(matches!(
        compile_tree(&pool, root, &cfg(false, "\n")),
        Err(TransformErr::MixinRecursionLimit)
    ));
}

#[test]
fn stringbox_transform_matches_context() {
    let mut scopes = ScopeArena::new();
    let root = scopes.new_root();
    scopes.define(root, "s".to_string(), ExpressionValue::Str("abc".to_string()));
    scopes.define(root, "n".to_string(), ExpressionValue::Num(3));
    let mut arena = TransformedArena::new();

    let ok = StringBox::Var("s".to_string()).transform(&scopes, root, &mut arena);
    assert!(ok.is_ok());

    match StringBox::Var("n".to_string()).transform(&scopes, root, &mut arena) {
        Err(TransformErr::TypeMismatch(expected, actual, name)) => {
            assert_eq!(expected, "String");
            assert_eq!(actual, "Number");
            assert_eq!(name, "n");
        },
        other => panic!("expected TypeMismatch, got {:?}", other),
    }

    match StringBox::Var("gone".to_string()).transform(&scopes, root, &mut arena) {
        Err(TransformErr::MissingVarRef(name)) => assert_eq!(name, "gone"),
        other => panic!("expected MissingVarRef, got {:?}", other),
    }

    assert!(StringBox::Value("plain".to_string()).transform(&scopes, root, &mut arena).is_ok());
}

#[test]
fn shadowing_inner_wins_outer_survives() {
    let mut scopes = ScopeArena::new();
    let outer = scopes.new_root();
    scopes.define(outer, "x".to_string(), ExpressionValue::Num(1));
    let inner = scopes.new_child(outer);
    scopes.define(inner, "x".to_string(), ExpressionValue::Num(2));
    match scopes.var(inner, &"x".to_string()) {
        Some(ExpressionValue::Num(n)) => assert_eq!(n, 2),
        other => panic!("expected inner binding, got {:?}", other),
    }
    match scopes.var(outer, &"x".to_string()) {
        Some(ExpressionValue::Num(n)) => assert_eq!(n, 1),
        other => panic!("expected outer binding, got {:?}", other),
    }
}

#[test]
fn transform_into_shared_arena_appends() {
    let mut pool = ExprArena::new();
    let a = lit_num(&mut pool, 1);
    let root = pool.push(Expression::Block(vec![a]));
    let mut scopes = ScopeArena::new();
    let rs = scopes.new_root();
    let mut arena = TransformedArena::new();
    let before = arena.len();
    let r = transform(&pool, root, &mut scopes, rs, &mut arena, MIXIN_RECURSION_LIMIT);
    assert!(r.is_ok());
    assert!(arena.len() > before);
}

#[test]
fn list_value_renders_space_joined() {
    let mut pool = ExprArena::new();
    let v = pool.push(Expression::Lit(ExpressionValue::Block(vec![
        ScalarValue::Str("Leather Belt".to_string()),
        ScalarValue::Num(20),
    ])));
    let root = pool.push(Expression::Block(vec![v]));
    let out = compile_tree(&pool, root, &cfg(false, "\n")).unwrap();
    assert_eq!(out, "\"Leather Belt\" 20\n");
}

#[test]
fn color_value_renders_three_numbers() {
    let mut pool = ExprArena::new();
    let v = pool.push(Expression::Lit(ExpressionValue::Color(255, 0, 127)));
    let root = pool.push(Expression::Block(vec![v]));
    let out = compile_tree(&pool, root, &cfg(false, "\n")).unwrap();
    assert_eq!(out, "255 0 127\n");
}

#[test]
fn render_requires_are_checked_by_builder() {
    let mut pool = ExprArena::new();
    // a block naming a child that does not exist is refused
    assert!(pool.try_push(Expression::Block(vec![7])).is_none());
    let ok = pool.try_push(Expression::Lit(ExpressionValue::Num(1)));
    assert!(ok.is_some());
}

#[test]
fn mixin_parameter_shadows_outer_binding_and_outer_survives() {
    let mut pool = ExprArena::new();
    let one = lit_num(&mut pool, 1);
    let bind = pool.push(Expression::VarDef("x".to_string(), one));
    let body_ref = pool.push(Expression::Var("x".to_string()));
    let def = pool.push(Expression::MixinDef(
        "m".to_string(),
        vec!["x".to_string()],
        vec![body_ref],
    ));
    let five = lit_num(&mut pool, 5);
    let call = pool.push(Expression::MixinCall("m".to_string(), vec![five]));
    let after = pool.push(Expression::Var("x".to_string()));
    let root = pool.push(Expression::Block(vec![bind, def, call, after]));
    let out = compile_tree(&pool, root, &cfg(false, "\n")).unwrap();
    assert_eq!(out, "5\n1\n");
}
