//! The syntax tree of a source file.
//!
//! Expressions, patterns, type expressions and identifiers are interned in
//! arenas of the [`File`]: an id is an index into its arena. A node only
//! refers to nodes interned before it, so following children always ends.

use crate::span::Span;
use vstd::prelude::*;

verus! {

/// An interned identifier: an index into [`File::idents`].
#[derive(Debug, Clone, Copy, PartialEq, Eq, Hash, Structural)]
pub struct Ident(pub usize);

/// An interned expression: an index into [`File::exprs`].
#[derive(Debug, Clone, Copy, PartialEq, Eq, Hash, Structural)]
pub struct ExprId(pub usize);

/// An interned pattern: an index into [`File::patterns`].
#[derive(Debug, Clone, Copy, PartialEq, Eq, Hash, Structural)]
pub struct PatternId(pub usize);

/// An interned type expression: an index into [`File::type_exprs`].
#[derive(Debug, Clone, Copy, PartialEq, Eq, Hash, Structural)]
pub struct TypeExprId(pub usize);

#[derive(Debug, Clone, Copy, PartialEq, Eq, Hash, Structural)]
pub enum Op {
    Add,
    Sub,
    Mul,
    Div,
    Le,
    Eq,
}

#[derive(Debug, Clone, PartialEq, Eq, Hash)]
pub enum ExprData {
    Error,
    True,
    False,
    Num(usize),
    Var(Ident),
    FnCall(Ident, Vec<ExprId>),
    Let(PatternId, ExprId, ExprId),
    Sequence(ExprId, ExprId),
    Assign(ExprId, ExprId),
    AddressOf(ExprId),
    Deref(ExprId),
    Tuple(Vec<ExprId>),
    Array(Vec<ExprId>),
    Index(ExprId, ExprId),
    Match(ExprId, Vec<(PatternId, ExprId)>),
    BinOp(Op, ExprId, ExprId),
}

#[derive(Debug, Clone, PartialEq, Eq, Hash)]
pub enum PatternData {
    Wildcard,
    True,
    False,
    Tuple(Vec<PatternId>),
    Var { name: Ident, is_mut: bool },
}

#[derive(Debug, Clone, PartialEq, Eq, Hash)]
pub enum TypeExprData {
    Error,
    Tuple(Vec<TypeExprId>),
    Array(usize, TypeExprId),
    Int,
    Bool,
    Ptr { tp: TypeExprId, is_mut: bool },
    Fn(Vec<TypeExprId>, TypeExprId),
    Slice(bool, TypeExprId),
}

#[derive(Debug, Clone, PartialEq, Eq, Hash)]
pub struct FnDef {
    pub ext: bool,
    pub name: Ident,
    pub args: Vec<(PatternId, TypeExprId)>,
    pub ret_type: TypeExprId,
    pub body: Option<ExprId>,
}

#[derive(Debug, Clone, PartialEq, Eq, Hash)]
pub enum Def {
    FnDef(FnDef),
}

/// A parsed source file: its definitions, and the arenas their nodes live in.
#[derive(Debug)]
pub struct File {
    pub defs: Vec<Def>,
    pub exprs: Vec<(ExprData, Span)>,
    pub patterns: Vec<(PatternData, Span)>,
    pub type_exprs: Vec<(TypeExprData, Span)>,
    pub idents: Vec<String>,
}

/// Every expression that `e` refers to comes before index `i`, every pattern
/// is interned, and every identifier is known.
pub open spec fn expr_refs_ok(e: ExprData, i: int, np: nat, ni: nat) -> bool {
    match e {
        ExprData::Var(x) => x.0 < ni,
        ExprData::FnCall(x, args) => x.0 < ni && forall|k: int| 0 <= k < args@.len() ==> (#[trigger] args@[k]).0 < i,
        ExprData::Let(p, a, b) => p.0 < np && a.0 < i && b.0 < i,
        ExprData::Sequence(a, b) => a.0 < i && b.0 < i,
        ExprData::Assign(a, b) => a.0 < i && b.0 < i,
        ExprData::AddressOf(a) => a.0 < i,
        ExprData::Deref(a) => a.0 < i,
        ExprData::Tuple(es) => forall|k: int| 0 <= k < es@.len() ==> (#[trigger] es@[k]).0 < i,
        ExprData::Array(es) => forall|k: int| 0 <= k < es@.len() ==> (#[trigger] es@[k]).0 < i,
        ExprData::Index(a, b) => a.0 < i && b.0 < i,
        ExprData::Match(a, arms) => a.0 < i && forall|k: int|
            0 <= k < arms@.len() ==> (#[trigger] arms@[k]).0.0 < np && arms@[k].1.0 < i,
        ExprData::BinOp(_, a, b) => a.0 < i && b.0 < i,
        _ => true,
    }
}

/// Every pattern that `p` refers to comes before index `i`, and every
/// identifier is known.
pub open spec fn pattern_refs_ok(p: PatternData, i: int, ni: nat) -> bool {
    match p {
        PatternData::Tuple(ps) => forall|k: int| 0 <= k < ps@.len() ==> (#[trigger] ps@[k]).0 < i,
        PatternData::Var { name, .. } => name.0 < ni,
        _ => true,
    }
}

/// Every type expression that `t` refers to comes before index `i`.
pub open spec fn type_expr_refs_ok(t: TypeExprData, i: int) -> bool {
    match t {
        TypeExprData::Tuple(ts) => forall|k: int| 0 <= k < ts@.len() ==> (#[trigger] ts@[k]).0 < i,
        TypeExprData::Array(_, a) => a.0 < i,
        TypeExprData::Ptr { tp, .. } => tp.0 < i,
        TypeExprData::Fn(args, ret) => ret.0 < i && forall|k: int| 0 <= k < args@.len() ==> (#[trigger] args@[k]).0 < i,
        TypeExprData::Slice(_, a) => a.0 < i,
        _ => true,
    }
}

/// Every node that the definition `d` refers to is interned in `f`.
pub open spec fn def_refs_ok(d: Def, f: File) -> bool {
    match d {
        Def::FnDef(fd) => {
            &&& fd.name.0 < f.idents@.len()
            &&& fd.ret_type.0 < f.type_exprs@.len()
            &&& (fd.body matches Some(b) ==> b.0 < f.exprs@.len())
            &&& forall|k: int| 0 <= k < fd.args@.len() ==> (#[trigger] fd.args@[k]).0.0 < f.patterns@.len()
                && fd.args@[k].1.0 < f.type_exprs@.len()
        },
    }
}

impl File {
    /// The arenas are closed and acyclic (every node only refers to nodes
    /// interned before it), and the definitions refer to interned nodes.
    pub open spec fn wf(&self) -> bool {
        &&& forall|i: int| 0 <= i < self.defs@.len() ==> def_refs_ok(#[trigger] self.defs@[i], *self)
        &&& forall|i: int| 0 <= i < self.exprs@.len() ==> expr_refs_ok(
            (#[trigger] self.exprs@[i]).0,
            i,
            self.patterns@.len(),
            self.idents@.len(),
        )
        &&& forall|i: int| 0 <= i < self.patterns@.len() ==> pattern_refs_ok(
            (#[trigger] self.patterns@[i]).0,
            i,
            self.idents@.len(),
        )
        &&& forall|i: int| 0 <= i < self.type_exprs@.len() ==> type_expr_refs_ok(
            (#[trigger] self.type_exprs@[i]).0,
            i,
        )
    }

    /// The data of the expression `e`.
    pub open spec fn expr(&self, e: ExprId) -> ExprData {
        self.exprs@[e.0 as int].0
    }

    pub open spec fn pattern(&self, p: PatternId) -> PatternData {
        self.patterns@[p.0 as int].0
    }
}

/// Whether every id of `ids` is below `bound`.
fn ids_below(ids: &Vec<ExprId>, bound: usize) -> (b: bool)
    ensures
        b == forall|k: int| 0 <= k < ids@.len() ==> (#[trigger] ids@[k]).0 < bound,
{
    let mut i: usize = 0;
    while i < ids.len()
        invariant
            i <= ids@.len(),
            forall|k: int| 0 <= k < i ==> (#[trigger] ids@[k]).0 < bound,
        decreases ids.len() - i,
    {
        if ids[i].0 >= bound {
            return false;
        }
        i += 1;
    }
    true
}

/// Whether the expression `e`, interned at index `i`, only refers to
/// earlier expressions and to interned patterns and identifiers.
#[verifier::loop_isolation(false)]
fn expr_refs_ok_exec(e: &ExprData, i: usize, np: usize, ni: usize) -> (b: bool)
    ensures
        b == expr_refs_ok(*e, i as int, np as nat, ni as nat),
{
    match e {
        ExprData::Var(x) => x.0 < ni,
        ExprData::FnCall(x, args) => x.0 < ni && ids_below(args, i),
        ExprData::Let(p, a, b) => p.0 < np && a.0 < i && b.0 < i,
        ExprData::Sequence(a, b) => a.0 < i && b.0 < i,
        ExprData::Assign(a, b) => a.0 < i && b.0 < i,
        ExprData::AddressOf(a) => a.0 < i,
        ExprData::Deref(a) => a.0 < i,
        ExprData::Tuple(es) => ids_below(es, i),
        ExprData::Array(es) => ids_below(es, i),
        ExprData::Index(a, b) => a.0 < i && b.0 < i,
        ExprData::Match(a, arms) => {
            if a.0 >= i {
                return false;
            }
            let mut k: usize = 0;
            while k < arms.len()
                invariant
                    k <= arms@.len(),
                    forall|j: int| 0 <= j < k ==> (#[trigger] arms@[j]).0.0 < np && arms@[j].1.0 < i,
                decreases arms.len() - k,
            {
                if arms[k].0.0 >= np || arms[k].1.0 >= i {
                    return false;
                }
                k += 1;
            }
            true
        },
        ExprData::BinOp(_, a, b) => a.0 < i && b.0 < i,
        _ => true,
    }
}

/// Whether the pattern `p`, interned at index `i`, only refers to earlier
/// patterns and to interned identifiers.
#[verifier::loop_isolation(false)]
fn pattern_refs_ok_exec(p: &PatternData, i: usize, ni: usize) -> (b: bool)
    ensures
        b == pattern_refs_ok(*p, i as int, ni as nat),
{
    match p {
        PatternData::Tuple(ps) => {
            let mut k: usize = 0;
            while k < ps.len()
                invariant
                    k <= ps@.len(),
                    forall|j: int| 0 <= j < k ==> (#[trigger] ps@[j]).0 < i,
                decreases ps.len() - k,
            {
                if ps[k].0 >= i {
                    return false;
                }
                k += 1;
            }
            true
        },
        PatternData::Var { name, .. } => name.0 < ni,
        _ => true,
    }
}

/// Whether every id of `ts` is below `bound`.
fn type_ids_below(ts: &Vec<TypeExprId>, bound: usize) -> (b: bool)
    ensures
        b == forall|k: int| 0 <= k < ts@.len() ==> (#[trigger] ts@[k]).0 < bound,
{
    let mut i: usize = 0;
    while i < ts.len()
        invariant
            i <= ts@.len(),
            forall|k: int| 0 <= k < i ==> (#[trigger] ts@[k]).0 < bound,
        decreases ts.len() - i,
    {
        if ts[i].0 >= bound {
            return false;
        }
        i += 1;
    }
    true
}

/// Whether the type expression `t`, interned at index `i`, only refers to
/// earlier type expressions.
fn type_expr_refs_ok_exec(t: &TypeExprData, i: usize) -> (b: bool)
    ensures
        b == type_expr_refs_ok(*t, i as int),
{
    match t {
        TypeExprData::Tuple(ts) => type_ids_below(ts, i),
        TypeExprData::Array(_, a) => a.0 < i,
        TypeExprData::Ptr { tp, .. } => tp.0 < i,
        TypeExprData::Fn(args, ret) => ret.0 < i && type_ids_below(args, i),
        TypeExprData::Slice(_, a) => a.0 < i,
        _ => true,
    }
}

/// Whether the definition `d` only refers to nodes interned in `f`.
#[verifier::loop_isolation(false)]
fn def_refs_ok_exec(d: &Def, f: &File) -> (b: bool)
    ensures
        b == def_refs_ok(*d, *f),
{
    match d {
        Def::FnDef(fd) => {
            if fd.name.0 >= f.idents.len() || fd.ret_type.0 >= f.type_exprs.len() {
                return false;
            }
            if let Some(b) = fd.body {
                if b.0 >= f.exprs.len() {
                    return false;
                }
            }
            let mut k: usize = 0;
            while k < fd.args.len()
                invariant
                    k <= fd.args@.len(),
                    forall|j: int| 0 <= j < k ==> (#[trigger] fd.args@[j]).0.0 < f.patterns@.len()
                        && fd.args@[j].1.0 < f.type_exprs@.len(),
                decreases fd.args.len() - k,
            {
                if fd.args[k].0.0 >= f.patterns.len() || fd.args[k].1.0 >= f.type_exprs.len() {
                    return false;
                }
                k += 1;
            }
            true
        },
    }
}

/// Whether the arenas of `file` are closed and acyclic and its definitions
/// refer to interned nodes: the condition every pass over a file needs.
pub fn file_is_closed(file: &File) -> (b: bool)
    ensures
        b == file.wf(),
{
    let np = file.patterns.len();
    let ni = file.idents.len();
    let mut i: usize = 0;
    while i < file.defs.len()
        invariant
            i <= file.defs@.len(),
            forall|k: int| 0 <= k < i ==> def_refs_ok(#[trigger] file.defs@[k], *file),
        decreases file.defs.len() - i,
    {
        if !def_refs_ok_exec(&file.defs[i], file) {
            return false;
        }
        i += 1;
    }
    let mut i: usize = 0;
    while i < file.exprs.len()
        invariant
            i <= file.exprs@.len(),
            np == file.patterns@.len(),
            ni == file.idents@.len(),
            forall|k: int| 0 <= k < i ==> expr_refs_ok((#[trigger] file.exprs@[k]).0, k, np as nat, ni as nat),
        decreases file.exprs.len() - i,
    {
        if !expr_refs_ok_exec(&file.exprs[i].0, i, np, ni) {
            return false;
        }
        i += 1;
    }
    let mut i: usize = 0;
    while i < file.patterns.len()
        invariant
            i <= file.patterns@.len(),
            ni == file.idents@.len(),
            forall|k: int| 0 <= k < i ==> pattern_refs_ok((#[trigger] file.patterns@[k]).0, k, ni as nat),
        decreases file.patterns.len() - i,
    {
        if !pattern_refs_ok_exec(&file.patterns[i].0, i, ni) {
            return false;
        }
        i += 1;
    }
    let mut i: usize = 0;
    while i < file.type_exprs.len()
        invariant
            i <= file.type_exprs@.len(),
            forall|k: int| 0 <= k < i ==> type_expr_refs_ok((#[trigger] file.type_exprs@[k]).0, k),
        decreases file.type_exprs.len() - i,
    {
        if !type_expr_refs_ok_exec(&file.type_exprs[i].0, i) {
            return false;
        }
        i += 1;
    }
    true
}

} // verus!
