use must::def_map::FunctionId;
use must::mod_tree::ModuleId;
use must::parser::ast::{Def, ExprData, ExprId, File, FnDef, Ident, PatternData, PatternId, TypeExprData, TypeExprId};
use must::span::Span;
use must::typecheck::check_fn;

fn sp(a: usize, b: usize) -> Span {
    Span { start_byte: a, end_byte: b }
}

fn fid(name: &str) -> FunctionId {
    FunctionId { name: name.to_string(), module: ModuleId { parent: None } }
}

/// `ext fn f(x: int) -> int;` and `fn g(y: int) -> <ret> { <body> }`, with
/// the body's expressions given.
fn with_f(exprs: Vec<(ExprData, Span)>, ret: TypeExprId, y_mut: bool) -> File {
    let body = ExprId(exprs.len() - 1);
    File {
        defs: vec![
            Def::FnDef(FnDef { ext: true, name: Ident(0), args: vec![(PatternId(0), TypeExprId(0))], ret_type: TypeExprId(0), body: None }),
            Def::FnDef(FnDef { ext: false, name: Ident(2), args: vec![(PatternId(1), TypeExprId(0))], ret_type: ret, body: Some(body) }),
        ],
        exprs,
        patterns: vec![
            (PatternData::Var { name: Ident(1), is_mut: false }, sp(0, 0)),
            (PatternData::Var { name: Ident(3), is_mut: y_mut }, sp(0, 0)),
        ],
        type_exprs: vec![(TypeExprData::Int, sp(0, 0)), (TypeExprData::Tuple(vec![]), sp(0, 0))],
        idents: vec!["f".to_string(), "x".to_string(), "g".to_string(), "y".to_string()],
    }
}

#[test]
fn missing_argument_is_reported() {
    let file = with_f(vec![(ExprData::FnCall(Ident(0), vec![]), sp(10, 13))], TypeExprId(0), false);
    let (_, diags) = check_fn(&file, fid("g")).unwrap();
    assert_eq!(diags.len(), 1);
    assert_eq!(diags[0].message, "missing arg #1 of type Int");
    assert_eq!((diags[0].start_byte, diags[0].end_byte), (10, 13));
}

#[test]
fn unexpected_argument_is_reported() {
    let file = with_f(
        vec![(ExprData::Num(1), sp(12, 13)), (ExprData::Num(2), sp(15, 16)), (ExprData::FnCall(Ident(0), vec![ExprId(0), ExprId(1)]), sp(10, 17))],
        TypeExprId(0),
        false,
    );
    let (_, diags) = check_fn(&file, fid("g")).unwrap();
    assert_eq!(diags.len(), 1);
    assert_eq!(diags[0].message, "unexpected arg #2");
    assert_eq!((diags[0].start_byte, diags[0].end_byte), (15, 16));
}

#[test]
fn wrong_argument_type_is_reported() {
    let file = with_f(vec![(ExprData::True, sp(12, 16)), (ExprData::FnCall(Ident(0), vec![ExprId(0)]), sp(10, 17))], TypeExprId(0), false);
    let (_, diags) = check_fn(&file, fid("g")).unwrap();
    assert_eq!(diags.len(), 1);
    assert_eq!(diags[0].message, "type mismatch. expected: Int, got: Bool");
}

#[test]
fn dereferencing_a_number_is_reported() {
    let file = with_f(vec![(ExprData::Num(1), sp(11, 12)), (ExprData::Deref(ExprId(0)), sp(10, 12))], TypeExprId(0), false);
    let (res, diags) = check_fn(&file, fid("g")).unwrap();
    assert_eq!(diags.len(), 1);
    assert_eq!(diags[0].message, "this expression cannot be dereferenced");
    assert_eq!((diags[0].start_byte, diags[0].end_byte), (11, 12));
    assert_eq!(res.inferred_types[1], Some(must::tp::Type::Error));
}

#[test]
fn indexing_a_number_is_reported() {
    let file = with_f(
        vec![(ExprData::Num(1), sp(10, 11)), (ExprData::Num(0), sp(12, 13)), (ExprData::Index(ExprId(0), ExprId(1)), sp(10, 14))],
        TypeExprId(0),
        false,
    );
    let (_, diags) = check_fn(&file, fid("g")).unwrap();
    assert_eq!(diags.len(), 1);
    assert_eq!(diags[0].message, "this expression cannot be indexed");
    assert_eq!((diags[0].start_byte, diags[0].end_byte), (10, 11));
}

#[test]
fn assigning_to_an_immutable_binding_is_reported() {
    let file = with_f(
        vec![(ExprData::Var(Ident(3)), sp(10, 11)), (ExprData::Num(1), sp(14, 15)), (ExprData::Assign(ExprId(0), ExprId(1)), sp(10, 15))],
        TypeExprId(1),
        false,
    );
    let (_, diags) = check_fn(&file, fid("g")).unwrap();
    assert_eq!(diags.len(), 1);
    assert_eq!(diags[0].message, "this expression cannot be mutated");
    assert_eq!((diags[0].start_byte, diags[0].end_byte), (10, 11));
}

#[test]
fn assigning_to_a_mutable_binding_is_fine() {
    let file = with_f(
        vec![(ExprData::Var(Ident(3)), sp(10, 11)), (ExprData::Num(1), sp(14, 15)), (ExprData::Assign(ExprId(0), ExprId(1)), sp(10, 15))],
        TypeExprId(1),
        true,
    );
    let (_, diags) = check_fn(&file, fid("g")).unwrap();
    assert!(diags.is_empty());
}

#[test]
fn a_bool_pattern_against_an_int_is_reported() {
    let mut file = with_f(vec![(ExprData::Num(1), sp(10, 11))], TypeExprId(0), false);
    file.patterns[1] = (PatternData::True, sp(5, 9));
    let (_, diags) = check_fn(&file, fid("g")).unwrap();
    assert_eq!(diags.len(), 1);
    assert_eq!(diags[0].message, "type mismatch. expected: Int, got: Bool");
    assert_eq!((diags[0].start_byte, diags[0].end_byte), (5, 9));
}

#[test]
fn control_characters_are_escaped_as_rust_debug_does() {
    let name = "a\u{1}\0\u{7f}\"\\\tb".to_string();
    let d = must::diagnostic::Diagnostic::unbound_var(sp(0, 1), &name);
    assert_eq!(d.message, format!("unbound var: {:?}", name));
}
