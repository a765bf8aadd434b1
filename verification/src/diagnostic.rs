//! Diagnostics: errors reported against a range of the source text, and
//! the text of their messages.

use crate::span::Span;
use crate::tp::{Type, TypeV};
use vstd::prelude::*;

verus! {

#[derive(Debug, Clone, Copy, PartialEq, Eq, Structural)]
pub enum Severity {
    Error,
}

#[derive(Debug, Clone, PartialEq, Eq)]
pub struct Diagnostic {
    pub severity: Severity,
    pub start_byte: usize,
    pub end_byte: usize,
    pub message: String,
    pub notes: Vec<String>,
}

/// `String::push`: appends one character.
#[verifier::external_body]
fn push_char(s: &mut String, c: char)
    ensures
        final(s)@ == old(s)@.push(c),
{
    s.push(c)
}

/// Appends `t` to `s`.
pub fn push_str(s: &mut String, t: &str)
    ensures
        final(s)@ == old(s)@ + t@,
{
    s.append(t);
}

/// The decimal digit of `d`.
pub open spec fn digit(d: nat) -> char {
    if d == 0 { '0' } else if d == 1 { '1' } else if d == 2 { '2' } else if d == 3 { '3' } else if d == 4 { '4' } else if d == 5 { '5' } else if d == 6 { '6' } else if d == 7 { '7' } else if d == 8 { '8' } else { '9' }
}

/// The decimal numeral of `n`.
pub open spec fn decimal(n: nat) -> Seq<char>
    decreases n,
{
    if n < 10 {
        seq![digit(n)]
    } else {
        decimal(n / 10).push(digit(n % 10))
    }
}

fn digit_char(d: usize) -> (c: char)
    requires
        d < 10,
    ensures
        c == digit(d as nat),
{
    if d == 0 { '0' } else if d == 1 { '1' } else if d == 2 { '2' } else if d == 3 { '3' } else if d == 4 { '4' } else if d == 5 { '5' } else if d == 6 { '6' } else if d == 7 { '7' } else if d == 8 { '8' } else { '9' }
}

/// Appends the decimal numeral of `n` to `s`.
pub fn push_decimal(s: &mut String, n: usize)
    ensures
        final(s)@ == old(s)@ + decimal(n as nat),
    decreases n,
{
    if n >= 10 {
        push_decimal(s, n / 10);
    }
    push_char(s, digit_char(n % 10));
    assert(final(s)@ =~= old(s)@ + decimal(n as nat));
}

/// `c` as it appears inside a string's debug form.
pub open spec fn escaped(c: char) -> Seq<char> {
    if c == '"' {
        seq!['\\', '"']
    } else if c == '\\' {
        seq!['\\', '\\']
    } else if c == '\n' {
        seq!['\\', 'n']
    } else if c == '\r' {
        seq!['\\', 'r']
    } else if c == '\t' {
        seq!['\\', 't']
    } else if c == '\0' {
        seq!['\\', '0']
    } else if (c as u32) < 0x20 || c as u32 == 0x7f {
        seq!['\\', 'u', '{'] + hex_digits(c as u32) + seq!['}']
    } else {
        seq![c]
    }
}

/// The hexadecimal digit `d`, lower case.
pub open spec fn hex_digit(d: u32) -> char {
    if d == 0 { '0' } else if d == 1 { '1' } else if d == 2 { '2' } else if d == 3 { '3' }
    else if d == 4 { '4' } else if d == 5 { '5' } else if d == 6 { '6' } else if d == 7 { '7' }
    else if d == 8 { '8' } else if d == 9 { '9' } else if d == 10 { 'a' } else if d == 11 { 'b' }
    else if d == 12 { 'c' } else if d == 13 { 'd' } else if d == 14 { 'e' } else { 'f' }
}

/// `n`, below 256, in hexadecimal without leading zeros.
pub open spec fn hex_digits(n: u32) -> Seq<char> {
    if n >= 16 {
        seq![hex_digit(n / 16), hex_digit(n % 16)]
    } else {
        seq![hex_digit(n)]
    }
}

fn hex_char(d: u32) -> (c: char)
    ensures
        c == hex_digit(d),
{
    if d == 0 { '0' } else if d == 1 { '1' } else if d == 2 { '2' } else if d == 3 { '3' }
    else if d == 4 { '4' } else if d == 5 { '5' } else if d == 6 { '6' } else if d == 7 { '7' }
    else if d == 8 { '8' } else if d == 9 { '9' } else if d == 10 { 'a' } else if d == 11 { 'b' }
    else if d == 12 { 'c' } else if d == 13 { 'd' } else if d == 14 { 'e' } else { 'f' }
}

pub open spec fn escaped_all(s: Seq<char>) -> Seq<char>
    decreases s.len(),
{
    if s.len() == 0 {
        Seq::empty()
    } else {
        escaped_all(s.drop_last()) + escaped(s.last())
    }
}

/// The debug form of a string: quoted, with quotes, backslashes, line
/// breaks, tabs, the nul character and other control characters escaped.
pub open spec fn debug_str(s: Seq<char>) -> Seq<char> {
    seq!['"'] + escaped_all(s) + seq!['"']
}

fn push_escaped(s: &mut String, c: char)
    ensures
        final(s)@ == old(s)@ + escaped(c),
{
    if c == '"' || c == '\\' || c == '\n' || c == '\r' || c == '\t' {
        push_char(s, '\\');
        let e = if c == '"' { '"' } else if c == '\\' { '\\' } else if c == '\n' { 'n' } else if c == '\r' { 'r' } else { 't' };
        push_char(s, e);
    } else if c == '\0' {
        push_char(s, '\\');
        push_char(s, '0');
    } else if (c as u32) < 0x20 || c as u32 == 0x7f {
        let n = c as u32;
        push_char(s, '\\');
        push_char(s, 'u');
        push_char(s, '{');
        if n >= 16 {
            push_char(s, hex_char(n / 16));
        }
        push_char(s, hex_char(n % 16));
        push_char(s, '}');
    } else {
        push_char(s, c);
    }
    assert(final(s)@ =~= old(s)@ + escaped(c));
}

/// Appends the debug form of `t` to `s`.
pub fn push_debug_str(s: &mut String, t: &String)
    ensures
        final(s)@ == old(s)@ + debug_str(t@),
{
    let ghost start = s@;
    push_char(s, '"');
    let chars: &str = t.as_str();
    let n = chars.unicode_len();
    let mut i: usize = 0;
    while i < n
        invariant
            i <= n,
            n == t@.len(),
            chars@ == t@,
            s@ == start + seq!['"'] + escaped_all(t@.take(i as int)),
        decreases n - i,
    {
        let c = chars.get_char(i);
        push_escaped(s, c);
        assert(t@.take(i + 1).drop_last() =~= t@.take(i as int));
        i += 1;
    }
    assert(t@.take(n as int) =~= t@);
    push_char(s, '"');
    assert(s@ =~= start + debug_str(t@));
}

pub open spec fn debug_list(ts: Seq<TypeV>) -> Seq<char>
    decreases ts, 0nat,
{
    if ts.len() == 0 {
        Seq::empty()
    } else if ts.len() == 1 {
        debug_type(ts[0])
    } else {
        debug_list(ts.drop_last()) + seq![',', ' '] + debug_type(ts.last())
    }
}

pub open spec fn bool_text(b: bool) -> Seq<char> {
    if b { seq!['t', 'r', 'u', 'e'] } else { seq!['f', 'a', 'l', 's', 'e'] }
}

/// The debug form of a type, as `#[derive(Debug)]` writes it.
pub open spec fn debug_type(t: TypeV) -> Seq<char>
    decreases t, 1nat,
{
    match t {
        TypeV::Error => seq!['E', 'r', 'r', 'o', 'r'],
        TypeV::Int => seq!['I', 'n', 't'],
        TypeV::Bool => seq!['B', 'o', 'o', 'l'],
        TypeV::Tuple(ts) => seq!['T', 'u', 'p', 'l', 'e', '(', '['] + debug_list(ts) + seq![']', ')'],
        TypeV::Array(n, e) => seq!['A', 'r', 'r', 'a', 'y', '('] + decimal(n as nat) + seq![',', ' '] + debug_type(*e) + seq![')'],
        TypeV::Fn(args, ret) => seq!['F', 'n', '(', '['] + debug_list(args) + seq![']', ',', ' '] + debug_type(*ret) + seq![')'],
        TypeV::Ptr { tp, is_mut } => seq!['P', 't', 'r', ' ', '{', ' ', 't', 'p', ':', ' '] + debug_type(*tp)
            + seq![',', ' ', 'i', 's', '_', 'm', 'u', 't', ':', ' '] + bool_text(is_mut) + seq![' ', '}'],
        TypeV::Slice { tp, is_mut } => seq!['S', 'l', 'i', 'c', 'e', ' ', '{', ' ', 't', 'p', ':', ' '] + debug_type(*tp)
            + seq![',', ' ', 'i', 's', '_', 'm', 'u', 't', ':', ' '] + bool_text(is_mut) + seq![' ', '}'],
    }
}

pub fn push_chars(s: &mut String, cs: &[char])
    ensures
        final(s)@ == old(s)@ + cs@,
{
    let mut i: usize = 0;
    while i < cs.len()
        invariant
            i <= cs@.len(),
            s@ == old(s)@ + cs@.take(i as int),
        decreases cs.len() - i,
    {
        push_char(s, cs[i]);
        assert(cs@.take(i + 1) =~= cs@.take(i as int).push(cs@[i as int]));
        i += 1;
    }
    assert(cs@.take(cs@.len() as int) =~= cs@);
}

pub fn push_bool(s: &mut String, b: bool)
    ensures
        final(s)@ == old(s)@ + bool_text(b),
{
    if b {
        push_chars(s, &['t', 'r', 'u', 'e']);
    } else {
        push_chars(s, &['f', 'a', 'l', 's', 'e']);
    }
    assert(final(s)@ =~= old(s)@ + bool_text(b));
}

/// Appends the debug form of `t` to `s`.
pub fn push_debug_type(s: &mut String, t: &Type)
    ensures
        final(s)@ == old(s)@ + debug_type(t@),
    decreases t,
{
    let ghost start = s@;
    match t {
        Type::Error => push_chars(s, &['E', 'r', 'r', 'o', 'r']),
        Type::Int => push_chars(s, &['I', 'n', 't']),
        Type::Bool => push_chars(s, &['B', 'o', 'o', 'l']),
        Type::Tuple(ts) => {
            push_chars(s, &['T', 'u', 'p', 'l', 'e', '(', '[']);
            assert(decreases_to!(*t => *ts));
            push_debug_list(s, ts);
            push_chars(s, &[']', ')']);
        },
        Type::Array(n, e) => {
            push_chars(s, &['A', 'r', 'r', 'a', 'y', '(']);
            push_decimal(s, *n);
            push_chars(s, &[',', ' ']);
            push_debug_type(s, e);
            push_chars(s, &[')']);
        },
        Type::Fn(args, ret) => {
            push_chars(s, &['F', 'n', '(', '[']);
            assert(decreases_to!(*t => *args));
            push_debug_list(s, args);
            push_chars(s, &[']', ',', ' ']);
            push_debug_type(s, ret);
            push_chars(s, &[')']);
        },
        Type::Ptr { tp, is_mut } => {
            push_chars(s, &['P', 't', 'r', ' ', '{', ' ', 't', 'p', ':', ' ']);
            push_debug_type(s, tp);
            push_chars(s, &[',', ' ', 'i', 's', '_', 'm', 'u', 't', ':', ' ']);
            push_bool(s, *is_mut);
            push_chars(s, &[' ', '}']);
        },
        Type::Slice { tp, is_mut } => {
            push_chars(s, &['S', 'l', 'i', 'c', 'e', ' ', '{', ' ', 't', 'p', ':', ' ']);
            push_debug_type(s, tp);
            push_chars(s, &[',', ' ', 'i', 's', '_', 'm', 'u', 't', ':', ' ']);
            push_bool(s, *is_mut);
            push_chars(s, &[' ', '}']);
        },
    }
    assert(s@ =~= start + debug_type(t@));
}

/// Appends the debug forms of `ts`, separated by `, `.
#[verifier::loop_isolation(false)]
fn push_debug_list(s: &mut String, ts: &Vec<Type>)
    ensures
        final(s)@ == old(s)@ + debug_list(crate::tp::types_view(ts@)),
    decreases ts,
{
    let ghost tv = crate::tp::types_view(ts@);
    let mut i: usize = 0;
    while i < ts.len()
        invariant
            i <= ts@.len(),
            s@ == old(s)@ + debug_list(tv.take(i as int)),
        decreases ts.len() - i,
    {
        assert(decreases_to!(*ts => ts@[i as int]));
        assert(tv.take(i + 1).drop_last() =~= tv.take(i as int));
        if i > 0 {
            push_chars(s, &[',', ' ']);
        } else {
            assert(tv.take(0) =~= Seq::<TypeV>::empty());
        }
        push_debug_type(s, &ts[i]);
        i += 1;
    }
    assert(tv.take(ts.len() as int) =~= tv);
}

impl Diagnostic {
    /// An error at `span`.
    pub fn error(span: Span, message: String) -> (d: Self)
        ensures
            d.severity == Severity::Error,
            d.start_byte == span.start_byte,
            d.end_byte == span.end_byte,
            d.message@ == message@,
            d.notes@.len() == 0,
    {
        Diagnostic {
            severity: Severity::Error,
            start_byte: span.start_byte,
            end_byte: span.end_byte,
            message,
            notes: Vec::new(),
        }
    }
}

/// What the parser reports when it cannot read the input; a token is given
/// by its text and its byte range.
#[derive(Debug, Clone, PartialEq, Eq)]
pub enum ParseErrorInfo {
    InvalidToken { location: usize },
    UnrecognizedEof { location: usize, expected: Vec<String> },
    UnrecognizedToken { start: usize, token: String, end: usize, expected: Vec<String> },
    ExtraToken { start: usize, token: String, end: usize },
}

/// The strings `ss` joined by line breaks.
pub open spec fn join_lines(ss: Seq<Seq<char>>) -> Seq<char>
    decreases ss.len(),
{
    if ss.len() == 0 {
        Seq::empty()
    } else if ss.len() == 1 {
        ss[0]
    } else {
        join_lines(ss.drop_last()) + seq!['\n'] + ss.last()
    }
}

pub open spec fn strings_view(ss: Seq<String>) -> Seq<Seq<char>> {
    ss.map_values(|s: String| s@)
}

/// The note that lists the tokens the parser expected.
pub open spec fn expected_note(expected: Seq<Seq<char>>) -> Seq<char> {
    "expected one of:\n"@ + join_lines(expected)
}

fn expected_note_exec(expected: &Vec<String>) -> (res: String)
    ensures
        res@ == expected_note(strings_view(expected@)),
{
    let mut s = String::new();
    push_str(&mut s, "expected one of:\n");
    let ghost ev = strings_view(expected@);
    let ghost start = s@;
    let mut i: usize = 0;
    while i < expected.len()
        invariant
            i <= expected@.len(),
            ev == strings_view(expected@),
            s@ == start + join_lines(ev.take(i as int)),
        decreases expected.len() - i,
    {
        assert(ev.take(i + 1).drop_last() =~= ev.take(i as int));
        if i > 0 {
            push_char(&mut s, '\n');
        } else {
            assert(ev.take(0) =~= Seq::<Seq<char>>::empty());
        }
        push_str(&mut s, expected[i].as_str());
        i += 1;
    }
    assert(ev.take(expected.len() as int) =~= ev);
    s
}

impl Diagnostic {
    /// The diagnostic for an error of the parser.
    pub fn parser_error(err: ParseErrorInfo) -> (d: Self)
        ensures
            d.severity == Severity::Error,
            match err {
                ParseErrorInfo::InvalidToken { location } => d.start_byte == location && d.end_byte == location
                    && d.message@ == "invalid token"@ && d.notes@.len() == 0,
                ParseErrorInfo::UnrecognizedEof { location, expected } => d.start_byte == location && d.end_byte == location
                    && d.message@ == "unexpected end of file"@ && d.notes@.len() == 1
                    && d.notes@[0]@ == expected_note(strings_view(expected@)),
                ParseErrorInfo::UnrecognizedToken { start, token, end, expected } => d.start_byte == start && d.end_byte == end
                    && d.message@ == "unexpected token: "@ + token@ && d.notes@.len() == 1
                    && d.notes@[0]@ == expected_note(strings_view(expected@)),
                ParseErrorInfo::ExtraToken { start, token, end } => d.start_byte == start && d.end_byte == end
                    && d.message@ == "unexpected token: "@ + token@ && d.notes@.len() == 0,
            },
    {
        match err {
            ParseErrorInfo::InvalidToken { location } => Diagnostic {
                severity: Severity::Error,
                start_byte: location,
                end_byte: location,
                message: "invalid token".to_string(),
                notes: Vec::new(),
            },
            ParseErrorInfo::UnrecognizedEof { location, expected } => {
                let note = expected_note_exec(&expected);
                let mut notes = Vec::new();
                notes.push(note);
                Diagnostic {
                    severity: Severity::Error,
                    start_byte: location,
                    end_byte: location,
                    message: "unexpected end of file".to_string(),
                    notes,
                }
            },
            ParseErrorInfo::UnrecognizedToken { start, token, end, expected } => {
                let mut message = String::new();
                push_str(&mut message, "unexpected token: ");
                push_str(&mut message, token.as_str());
                let note = expected_note_exec(&expected);
                let mut notes = Vec::new();
                notes.push(note);
                Diagnostic { severity: Severity::Error, start_byte: start, end_byte: end, message, notes }
            },
            ParseErrorInfo::ExtraToken { start, token, end } => {
                let mut message = String::new();
                push_str(&mut message, "unexpected token: ");
                push_str(&mut message, token.as_str());
                Diagnostic { severity: Severity::Error, start_byte: start, end_byte: end, message, notes: Vec::new() }
            },
        }
    }
}

} // verus!
