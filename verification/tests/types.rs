use must::diagnostic::{Diagnostic, ParseErrorInfo, Severity};
use must::layout::{get_size, try_get_size};
use must::span::Span;
use must::tp::Type;
use std::sync::Arc;

#[test]
fn sizes_of_types() {
    assert_eq!(get_size(&Type::Int), 1);
    assert_eq!(get_size(&Type::Bool), 1);
    assert_eq!(get_size(&Type::Tuple(vec![Type::Int, Type::Bool, Type::Tuple(vec![])])), 2);
    assert_eq!(get_size(&Type::Array(3, Arc::new(Type::Tuple(vec![Type::Int, Type::Int])))), 6);
    assert_eq!(get_size(&Type::Ptr { tp: Arc::new(Type::Int), is_mut: false }), 1);
    assert_eq!(get_size(&Type::Slice { tp: Arc::new(Type::Int), is_mut: true }), 2);
    assert_eq!(get_size(&Type::Fn(vec![Type::Int], Arc::new(Type::Int))), 1);
}

#[test]
fn the_error_type_has_no_size() {
    assert_eq!(try_get_size(&Type::Error), None);
    assert_eq!(try_get_size(&Type::Tuple(vec![Type::Int, Type::Error])), None);
    assert_eq!(try_get_size(&Type::Int), Some(1));
}

#[test]
fn type_constructors() {
    assert_eq!(Type::tuple(vec![]), Type::Tuple(vec![]));
    assert_eq!(Type::array(2, Type::Int), Type::Array(2, Arc::new(Type::Int)));
    assert_eq!(Type::ptr(Type::Int, true), Type::Ptr { tp: Arc::new(Type::Int), is_mut: true });
    assert_eq!(Type::slice(Type::Bool, false), Type::Slice { tp: Arc::new(Type::Bool), is_mut: false });
    assert_eq!(Type::fun(vec![Type::Int], Type::Bool), Type::Fn(vec![Type::Int], Arc::new(Type::Bool)));
    assert_eq!(Type::error(), Type::Error);
    assert_eq!(Type::integer(), Type::Int);
    assert_eq!(Type::boolean(), Type::Bool);
    let t = Type::Tuple(vec![Type::Int, Type::ptr(Type::Bool, false)]);
    assert_eq!(t.copy(), t);
}

#[test]
fn diagnostic_messages() {
    let span = Span { start_byte: 3, end_byte: 7 };
    let d = Diagnostic::type_mismatch(span, &Type::Tuple(vec![Type::Int, Type::Bool]), &Type::ptr(Type::Int, true));
    assert_eq!(d.message, "type mismatch. expected: Tuple([Int, Bool]), got: Ptr { tp: Int, is_mut: true }");
    assert_eq!(d.severity, Severity::Error);
    assert_eq!((d.start_byte, d.end_byte), (3, 7));
    assert!(d.notes.is_empty());
    assert_eq!(Diagnostic::unbound_var(span, &"a\"b".to_string()).message, "unbound var: \"a\\\"b\"");
    assert_eq!(Diagnostic::exp_mut(span).message, "this expression cannot be mutated");
    assert_eq!(Diagnostic::cannot_index(span).message, "this expression cannot be indexed");
    assert_eq!(Diagnostic::cannot_deref(span).message, "this expression cannot be dereferenced");
    assert_eq!(Diagnostic::missing_argument(12, span, &Type::Int).message, "missing arg #12 of type Int");
    assert_eq!(Diagnostic::unexpected_argument(3, span).message, "unexpected arg #3");
    let d = Diagnostic::type_mismatch(span, &Type::Array(4, Arc::new(Type::Int)), &Type::slice(Type::Int, false));
    assert_eq!(d.message, "type mismatch. expected: Array(4, Int), got: Slice { tp: Int, is_mut: false }");
    let d = Diagnostic::type_mismatch(span, &Type::fun(vec![], Type::Error), &Type::Bool);
    assert_eq!(d.message, "type mismatch. expected: Fn([], Error), got: Bool");
}

#[test]
fn parser_error_diagnostics() {
    let d = Diagnostic::parser_error(ParseErrorInfo::InvalidToken { location: 4 });
    assert_eq!((d.start_byte, d.end_byte), (4, 4));
    assert_eq!(d.message, "invalid token");
    let d = Diagnostic::parser_error(ParseErrorInfo::ExtraToken { start: 1, token: "x".to_string(), end: 2 });
    assert_eq!((d.start_byte, d.end_byte), (1, 2));
    assert_eq!(d.message, "unexpected token: x");
    let d = Diagnostic::parser_error(ParseErrorInfo::UnrecognizedEof {
        location: 9,
        expected: vec!["\"(\"".to_string(), "ident".to_string()],
    });
    assert_eq!(d.message, "unexpected end of file");
    assert_eq!(d.notes, vec!["expected one of:\n\"(\"\nident".to_string()]);
    let d = Diagnostic::parser_error(ParseErrorInfo::UnrecognizedToken {
        start: 3,
        token: "}".to_string(),
        end: 4,
        expected: vec![],
    });
    assert_eq!(d.message, "unexpected token: }");
    assert_eq!(d.notes, vec!["expected one of:\n".to_string()]);
}
