//! The diagnostics that type checking reports.

use crate::diagnostic::{debug_str, debug_type, decimal, push_debug_str, push_debug_type, push_decimal, push_str, Diagnostic, Severity};
use crate::span::Span;
use crate::tp::Type;
use vstd::prelude::*;

verus! {

/// `d` is an error at `span` with the message `m` and no notes.
pub open spec fn error_at(d: Diagnostic, span: Span, m: Seq<char>) -> bool {
    &&& d.severity == Severity::Error
    &&& d.start_byte == span.start_byte
    &&& d.end_byte == span.end_byte
    &&& d.message@ == m
    &&& d.notes@.len() == 0
}

impl Diagnostic {
    pub fn unbound_var(span: Span, name: &String) -> (d: Self)
        ensures
            error_at(d, span, "unbound var: "@ + debug_str(name@)),
    {
        let mut m = String::new();
        push_str(&mut m, "unbound var: ");
        push_debug_str(&mut m, name);
        Diagnostic::error(span, m)
    }

    pub fn exp_mut(span: Span) -> (d: Self)
        ensures
            error_at(d, span, "this expression cannot be mutated"@),
    {
        Diagnostic::error(span, "this expression cannot be mutated".to_string())
    }

    pub fn cannot_index(span: Span) -> (d: Self)
        ensures
            error_at(d, span, "this expression cannot be indexed"@),
    {
        Diagnostic::error(span, "this expression cannot be indexed".to_string())
    }

    pub fn cannot_deref(span: Span) -> (d: Self)
        ensures
            error_at(d, span, "this expression cannot be dereferenced"@),
    {
        Diagnostic::error(span, "this expression cannot be dereferenced".to_string())
    }

    pub fn type_mismatch(span: Span, exp: &Type, got: &Type) -> (d: Self)
        ensures
            error_at(d, span, "type mismatch. expected: "@ + debug_type(exp@) + ", got: "@ + debug_type(got@)),
    {
        let mut m = String::new();
        push_str(&mut m, "type mismatch. expected: ");
        push_debug_type(&mut m, exp);
        push_str(&mut m, ", got: ");
        push_debug_type(&mut m, got);
        Diagnostic::error(span, m)
    }

    pub fn missing_argument(id: usize, span: Span, tp: &Type) -> (d: Self)
        ensures
            error_at(d, span, "missing arg #"@ + decimal(id as nat) + " of type "@ + debug_type(tp@)),
    {
        let mut m = String::new();
        push_str(&mut m, "missing arg #");
        push_decimal(&mut m, id);
        push_str(&mut m, " of type ");
        push_debug_type(&mut m, tp);
        Diagnostic::error(span, m)
    }

    pub fn unexpected_argument(id: usize, span: Span) -> (d: Self)
        ensures
            error_at(d, span, "unexpected arg #"@ + decimal(id as nat)),
    {
        let mut m = String::new();
        push_str(&mut m, "unexpected arg #");
        push_decimal(&mut m, id);
        Diagnostic::error(span, m)
    }
}

} // verus!
