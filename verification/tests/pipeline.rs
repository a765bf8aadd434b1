use must::bytecode::compile;
use must::bytecode::lower::LowerError;
use must::def_map::{module_def_map, FunctionId};
use must::mod_tree::ModuleId;
use must::parser::ast::{file_is_closed, Def, ExprData, ExprId, File, FnDef, Ident, Op, PatternData, PatternId, TypeExprData, TypeExprId};
use must::parser::func_ast;
use must::span::Span;
use must::tp::Type;
use must::typecheck::{check_crate, check_fn, Coercion};
use must::vm::{run, RunResult, Value};

fn sp(a: usize, b: usize) -> Span {
    Span { start_byte: a, end_byte: b }
}

fn root() -> ModuleId {
    ModuleId { parent: None }
}

fn fid(name: &str) -> FunctionId {
    FunctionId { name: name.to_string(), module: root() }
}

/// `ext fn printnum(x: int) -> ();`
/// `fn main() -> () { printnum(40 + 2) }`
fn print_sum_file() -> File {
    File {
        defs: vec![
            Def::FnDef(FnDef {
                ext: true,
                name: Ident(0),
                args: vec![(PatternId(0), TypeExprId(0))],
                ret_type: TypeExprId(1),
                body: None,
            }),
            Def::FnDef(FnDef { ext: false, name: Ident(2), args: vec![], ret_type: TypeExprId(1), body: Some(ExprId(3)) }),
        ],
        exprs: vec![
            (ExprData::Num(40), sp(60, 62)),
            (ExprData::Num(2), sp(65, 66)),
            (ExprData::BinOp(Op::Add, ExprId(0), ExprId(1)), sp(60, 66)),
            (ExprData::FnCall(Ident(0), vec![ExprId(2)]), sp(51, 67)),
        ],
        patterns: vec![(PatternData::Var { name: Ident(1), is_mut: false }, sp(14, 15))],
        type_exprs: vec![(TypeExprData::Int, sp(17, 20)), (TypeExprData::Tuple(vec![]), sp(25, 27))],
        idents: vec!["printnum".to_string(), "x".to_string(), "main".to_string()],
    }
}

#[test]
fn print_sum_type_checks_cleanly() {
    let file = print_sum_file();
    let (res, diags) = check_fn(&file, fid("main")).unwrap();
    assert!(diags.is_empty());
    assert_eq!(res.inferred_types.len(), 4);
    assert_eq!(res.inferred_types[2], Some(Type::Int));
    assert_eq!(res.inferred_types[3], Some(Type::Tuple(vec![])));
    assert_eq!(res.coercions, vec![None, None, None, None]);
}

#[test]
fn print_sum_compiles_and_prints_42() {
    let file = print_sum_file();
    let prog = compile(&file).unwrap();
    assert_eq!(prog.funcs.len(), 1);
    assert_eq!(prog.funcs[0].0, "main");
    let (result, output) = run(prog, 1000);
    assert_eq!(result, RunResult::Finished(Value::Null));
    assert_eq!(output, vec![42]);
}

#[test]
fn check_crate_covers_every_function_once() {
    let file = print_sum_file();
    let results = check_crate(&file).unwrap();
    assert_eq!(results.len(), 2);
    assert_eq!(results[0].0.name, "printnum");
    assert_eq!(results[1].0.name, "main");
    assert!(results.iter().all(|(_, _, d)| d.is_empty()));
    let dm = module_def_map(&file, root());
    assert_eq!(dm.functions.len(), 2);
    assert_eq!(dm.get(&"main".to_string()), Some(1));
    assert_eq!(dm.get(&"nope".to_string()), None);
}

/// `fn f() -> bool { 1 }`
#[test]
fn mismatched_result_type_is_reported() {
    let file = File {
        defs: vec![Def::FnDef(FnDef { ext: false, name: Ident(0), args: vec![], ret_type: TypeExprId(0), body: Some(ExprId(0)) })],
        exprs: vec![(ExprData::Num(1), sp(17, 18))],
        patterns: vec![],
        type_exprs: vec![(TypeExprData::Bool, sp(10, 14))],
        idents: vec!["f".to_string()],
    };
    let (_, diags) = check_fn(&file, fid("f")).unwrap();
    assert_eq!(diags.len(), 1);
    assert_eq!(diags[0].message, "type mismatch. expected: Bool, got: Int");
    assert_eq!((diags[0].start_byte, diags[0].end_byte), (17, 18));
}

/// `fn f() -> int { y }`
#[test]
fn unbound_variable_is_reported() {
    let file = File {
        defs: vec![Def::FnDef(FnDef { ext: false, name: Ident(0), args: vec![], ret_type: TypeExprId(0), body: Some(ExprId(0)) })],
        exprs: vec![(ExprData::Var(Ident(1)), sp(16, 17))],
        patterns: vec![],
        type_exprs: vec![(TypeExprData::Int, sp(10, 13))],
        idents: vec!["f".to_string(), "y".to_string()],
    };
    let (res, diags) = check_fn(&file, fid("f")).unwrap();
    assert_eq!(diags.len(), 1);
    assert_eq!(diags[0].message, "unbound var: \"y\"");
    assert_eq!(res.inferred_types[0], Some(Type::Error));
}

/// `fn f(p: *mut [2]int) -> []int { p }`: a pointer to an array stands for
/// a slice, and the coercion is recorded.
#[test]
fn array_pointer_coerces_to_slice() {
    let file = File {
        defs: vec![Def::FnDef(FnDef {
            ext: false,
            name: Ident(0),
            args: vec![(PatternId(0), TypeExprId(2))],
            ret_type: TypeExprId(3),
            body: Some(ExprId(0)),
        })],
        exprs: vec![(ExprData::Var(Ident(1)), sp(30, 31))],
        patterns: vec![(PatternData::Var { name: Ident(1), is_mut: false }, sp(5, 6))],
        type_exprs: vec![
            (TypeExprData::Int, sp(0, 0)),
            (TypeExprData::Array(2, TypeExprId(0)), sp(0, 0)),
            (TypeExprData::Ptr { tp: TypeExprId(1), is_mut: true }, sp(0, 0)),
            (TypeExprData::Slice(false, TypeExprId(0)), sp(0, 0)),
        ],
        idents: vec!["f".to_string(), "p".to_string()],
    };
    let (res, diags) = check_fn(&file, fid("f")).unwrap();
    assert!(diags.is_empty());
    assert_eq!(res.coercions[0], Some(Coercion::ArrayPtrToSlice));
}

/// A slice does not stand for a pointer to an array.
#[test]
fn slice_does_not_coerce_to_array_pointer() {
    let file = File {
        defs: vec![Def::FnDef(FnDef {
            ext: false,
            name: Ident(0),
            args: vec![(PatternId(0), TypeExprId(3))],
            ret_type: TypeExprId(2),
            body: Some(ExprId(0)),
        })],
        exprs: vec![(ExprData::Var(Ident(1)), sp(30, 31))],
        patterns: vec![(PatternData::Var { name: Ident(1), is_mut: false }, sp(5, 6))],
        type_exprs: vec![
            (TypeExprData::Int, sp(0, 0)),
            (TypeExprData::Array(2, TypeExprId(0)), sp(0, 0)),
            (TypeExprData::Ptr { tp: TypeExprId(1), is_mut: true }, sp(0, 0)),
            (TypeExprData::Slice(false, TypeExprId(0)), sp(0, 0)),
        ],
        idents: vec!["f".to_string(), "p".to_string()],
    };
    let (_, diags) = check_fn(&file, fid("f")).unwrap();
    assert_eq!(diags.len(), 1);
    assert!(diags[0].message.starts_with("type mismatch. expected: Ptr"));
}

/// `fn f() -> int { let (a, b) = (1, true); a }`
#[test]
fn let_binds_tuple_parts() {
    let file = File {
        defs: vec![Def::FnDef(FnDef { ext: false, name: Ident(0), args: vec![], ret_type: TypeExprId(0), body: Some(ExprId(4)) })],
        exprs: vec![
            (ExprData::Num(1), sp(0, 0)),
            (ExprData::True, sp(0, 0)),
            (ExprData::Tuple(vec![ExprId(0), ExprId(1)]), sp(0, 0)),
            (ExprData::Var(Ident(1)), sp(0, 0)),
            (ExprData::Let(PatternId(2), ExprId(2), ExprId(3)), sp(0, 0)),
        ],
        patterns: vec![
            (PatternData::Var { name: Ident(1), is_mut: false }, sp(0, 0)),
            (PatternData::Var { name: Ident(2), is_mut: false }, sp(0, 0)),
            (PatternData::Tuple(vec![PatternId(0), PatternId(1)]), sp(0, 0)),
        ],
        type_exprs: vec![(TypeExprData::Int, sp(0, 0))],
        idents: vec!["f".to_string(), "a".to_string(), "b".to_string()],
    };
    let (res, diags) = check_fn(&file, fid("f")).unwrap();
    assert!(diags.is_empty());
    assert_eq!(res.inferred_types[2], Some(Type::Tuple(vec![Type::Int, Type::Bool])));
    assert_eq!(res.inferred_types[3], Some(Type::Int));
    assert_eq!(res.inferred_types[4], Some(Type::Int));
}

/// Calling something that is not a function cannot be checked.
#[test]
fn calling_a_non_function_is_an_error() {
    let file = File {
        defs: vec![Def::FnDef(FnDef {
            ext: false,
            name: Ident(0),
            args: vec![(PatternId(0), TypeExprId(0))],
            ret_type: TypeExprId(0),
            body: Some(ExprId(0)),
        })],
        exprs: vec![(ExprData::FnCall(Ident(1), vec![]), sp(0, 0))],
        patterns: vec![(PatternData::Var { name: Ident(1), is_mut: false }, sp(0, 0))],
        type_exprs: vec![(TypeExprData::Int, sp(0, 0))],
        idents: vec!["f".to_string(), "x".to_string()],
    };
    assert!(check_fn(&file, fid("f")).is_err());
}

/// A function without a body that is not external cannot be lowered.
#[test]
fn missing_body_is_an_error() {
    let file = File {
        defs: vec![Def::FnDef(FnDef { ext: false, name: Ident(0), args: vec![], ret_type: TypeExprId(0), body: None })],
        exprs: vec![],
        patterns: vec![],
        type_exprs: vec![(TypeExprData::Int, sp(0, 0))],
        idents: vec!["main".to_string()],
    };
    assert_eq!(compile(&file).err(), Some(LowerError::MissingBody));
}

#[test]
fn closed_files_are_recognised() {
    assert!(file_is_closed(&print_sum_file()));
    let mut bad = print_sum_file();
    bad.exprs[2] = (ExprData::BinOp(Op::Add, ExprId(0), ExprId(3)), sp(0, 0));
    assert!(!file_is_closed(&bad));
    let mut bad = print_sum_file();
    bad.defs.push(Def::FnDef(FnDef { ext: false, name: Ident(9), args: vec![], ret_type: TypeExprId(0), body: None }));
    assert!(!file_is_closed(&bad));
}

#[test]
fn func_ast_finds_the_first_definition() {
    let file = print_sum_file();
    assert_eq!(func_ast(&file, &fid("main")).map(|fd| fd.body), Some(Some(ExprId(3))));
    assert!(func_ast(&file, &fid("other")).is_none());
}

/// `fn main() -> int { let x = 2; let y = (x, 3); match y { (a, b) => a * b } }`
#[test]
fn let_tuple_and_match_run_to_six() {
    let file = File {
        defs: vec![Def::FnDef(FnDef { ext: false, name: Ident(0), args: vec![], ret_type: TypeExprId(0), body: Some(ExprId(10)) })],
        exprs: vec![
            (ExprData::Num(2), sp(0, 0)),
            (ExprData::Var(Ident(1)), sp(0, 0)),
            (ExprData::Num(3), sp(0, 0)),
            (ExprData::Tuple(vec![ExprId(1), ExprId(2)]), sp(0, 0)),
            (ExprData::Var(Ident(2)), sp(0, 0)),
            (ExprData::Var(Ident(3)), sp(0, 0)),
            (ExprData::Var(Ident(4)), sp(0, 0)),
            (ExprData::BinOp(Op::Mul, ExprId(5), ExprId(6)), sp(0, 0)),
            (ExprData::Match(ExprId(4), vec![(PatternId(4), ExprId(7))]), sp(0, 0)),
            (ExprData::Let(PatternId(1), ExprId(3), ExprId(8)), sp(0, 0)),
            (ExprData::Let(PatternId(0), ExprId(0), ExprId(9)), sp(0, 0)),
        ],
        patterns: vec![
            (PatternData::Var { name: Ident(1), is_mut: false }, sp(0, 0)),
            (PatternData::Var { name: Ident(2), is_mut: false }, sp(0, 0)),
            (PatternData::Var { name: Ident(3), is_mut: false }, sp(0, 0)),
            (PatternData::Var { name: Ident(4), is_mut: false }, sp(0, 0)),
            (PatternData::Tuple(vec![PatternId(2), PatternId(3)]), sp(0, 0)),
        ],
        type_exprs: vec![(TypeExprData::Int, sp(0, 0))],
        idents: vec!["main".to_string(), "x".to_string(), "y".to_string(), "a".to_string(), "b".to_string()],
    };
    assert!(file_is_closed(&file));
    let (res, diags) = check_fn(&file, fid("main")).unwrap();
    assert!(diags.is_empty());
    assert_eq!(res.inferred_types[8], Some(Type::Int));
    assert_eq!(res.inferred_types[3], Some(Type::Tuple(vec![Type::Int, Type::Int])));
    let prog = compile(&file).unwrap();
    let (r, _) = run(prog, 1000);
    assert_eq!(r, RunResult::Finished(Value::Int(6)));
}

/// `fn sq(n: int) -> int { n * n }` and `fn main() -> int { sq(7) }`
#[test]
fn calls_with_arguments_run() {
    let file = File {
        defs: vec![
            Def::FnDef(FnDef {
                ext: false,
                name: Ident(0),
                args: vec![(PatternId(0), TypeExprId(0))],
                ret_type: TypeExprId(0),
                body: Some(ExprId(2)),
            }),
            Def::FnDef(FnDef { ext: false, name: Ident(2), args: vec![], ret_type: TypeExprId(0), body: Some(ExprId(4)) }),
        ],
        exprs: vec![
            (ExprData::Var(Ident(1)), sp(0, 0)),
            (ExprData::Var(Ident(1)), sp(0, 0)),
            (ExprData::BinOp(Op::Mul, ExprId(0), ExprId(1)), sp(0, 0)),
            (ExprData::Num(7), sp(0, 0)),
            (ExprData::FnCall(Ident(0), vec![ExprId(3)]), sp(0, 0)),
        ],
        patterns: vec![(PatternData::Var { name: Ident(1), is_mut: false }, sp(0, 0))],
        type_exprs: vec![(TypeExprData::Int, sp(0, 0))],
        idents: vec!["sq".to_string(), "n".to_string(), "main".to_string()],
    };
    let results = check_crate(&file).unwrap();
    assert!(results.iter().all(|(_, _, d)| d.is_empty()));
    let prog = compile(&file).unwrap();
    assert_eq!(prog.funcs.len(), 2);
    let (r, _) = run(prog, 1000);
    assert_eq!(r, RunResult::Finished(Value::Int(49)));
}

/// Division has no instruction.
#[test]
fn division_cannot_be_lowered() {
    let file = File {
        defs: vec![Def::FnDef(FnDef { ext: false, name: Ident(0), args: vec![], ret_type: TypeExprId(0), body: Some(ExprId(2)) })],
        exprs: vec![
            (ExprData::Num(6), sp(0, 0)),
            (ExprData::Num(3), sp(0, 0)),
            (ExprData::BinOp(Op::Div, ExprId(0), ExprId(1)), sp(0, 0)),
        ],
        patterns: vec![],
        type_exprs: vec![(TypeExprData::Int, sp(0, 0))],
        idents: vec!["main".to_string()],
    };
    let (_, diags) = check_fn(&file, fid("main")).unwrap();
    assert!(diags.is_empty());
    assert_eq!(compile(&file).err(), Some(LowerError::UnsupportedDivision));
}

/// `fn main() -> int { let x = true; let x = 5; x }`: the inner binding
/// shadows the outer one, in checking and in the running program.
#[test]
fn inner_binding_shadows_outer_one() {
    let file = File {
        defs: vec![Def::FnDef(FnDef { ext: false, name: Ident(0), args: vec![], ret_type: TypeExprId(0), body: Some(ExprId(4)) })],
        exprs: vec![
            (ExprData::True, sp(0, 0)),
            (ExprData::Num(5), sp(0, 0)),
            (ExprData::Var(Ident(1)), sp(0, 0)),
            (ExprData::Let(PatternId(1), ExprId(1), ExprId(2)), sp(0, 0)),
            (ExprData::Let(PatternId(0), ExprId(0), ExprId(3)), sp(0, 0)),
        ],
        patterns: vec![
            (PatternData::Var { name: Ident(1), is_mut: false }, sp(0, 0)),
            (PatternData::Var { name: Ident(1), is_mut: false }, sp(0, 0)),
        ],
        type_exprs: vec![(TypeExprData::Int, sp(0, 0))],
        idents: vec!["main".to_string(), "x".to_string()],
    };
    let (res, diags) = check_fn(&file, fid("main")).unwrap();
    assert!(diags.is_empty());
    assert_eq!(res.inferred_types[2], Some(Type::Int));
    let prog = compile(&file).unwrap();
    let (result, _) = run(prog, 1000);
    assert_eq!(result, RunResult::Finished(Value::Int(5)));
}
