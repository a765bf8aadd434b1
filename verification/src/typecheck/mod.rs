//! Type inference and checking of function bodies.

pub mod check;
mod error;
pub mod inference;
pub mod unify;

use crate::def_map::{def_name, distinct_names, first_def, lemma_distinct_names_defined, module_def_map, FunctionId};
use crate::diagnostic::Diagnostic;
use crate::mod_tree::mod_tree;
use crate::parser::ast::{Def, ExprData, ExprId, File, Ident};
use crate::resolve::{func_signature, type_of_expr};
use crate::tp::Type;
use check::{arith, arith_ty, binding_names, in_arith};
use inference::compat::{coercible, lemma_coercible_seal, lemma_lift_closed, lemma_seal_lift};
use inference::subst::{below, seal, vars_below};
use inference::tp::{lift, UType, UTypeV};
use inference::{def_fn, find_def, lemma_continues_trans, pattern_name, InferenceCtx};
use vstd::prelude::*;

verus! {

/// What inference found out about a function body, indexed by expression id.
#[derive(Debug, PartialEq, Eq)]
pub struct InferenceResult {
    /// The sealed type of each expression that was inferred.
    pub inferred_types: Vec<Option<Type>>,
    /// The implicit conversion applied to each expression, if any.
    pub coercions: Vec<Option<Coercion>>,
}

/// Why a function body could not be checked at all.
#[derive(Debug, Clone, Copy, PartialEq, Eq, Structural)]
pub enum TypeError {
    /// The call expression calls a name that is not known to be a function.
    NotAFunction(ExprId),
}

/// The error names a call expression of `file` whose callee is the name of
/// a local variable: checking only stops at a call of a variable that does
/// not hold a function.
pub open spec fn names_call(file: File, err: TypeError) -> bool {
    match err {
        TypeError::NotAFunction(x) => x.0 < file.exprs@.len() && match file.exprs@[x.0 as int].0 {
            ExprData::FnCall(g, _) => local_name(file, g),
            _ => false,
        },
    }
}

/// Some variable pattern of `file` has the name that `g` spells.
pub open spec fn local_name(file: File, g: Ident) -> bool {
    exists|x: Ident| #[trigger] pattern_name(file, x) && x.0 < file.idents@.len() && file.idents@[x.0 as int]@ == file.idents@[g.0 as int]@
}

#[derive(Debug, Clone, Copy, PartialEq, Eq, Structural)]
pub enum Coercion {
    /// Cast `*mut [N]T` to `[]mut T` (thin pointer to fat pointer).
    ArrayPtrToSlice,
}

/// Each node of the arithmetic body `b` has its type recorded, and no
/// coercion was recorded.
pub open spec fn arith_typed(file: File, b: ExprId, res: InferenceResult) -> bool {
    &&& res.inferred_types@.len() == file.exprs@.len()
    &&& res.coercions@.len() == file.exprs@.len()
    &&& forall|j: int| 0 <= j < file.exprs@.len() && in_arith(file, b, j)
        ==> ((#[trigger] res.inferred_types@[j]) matches Some(t) && t@ == arith_ty(file, j))
    &&& forall|j: int| 0 <= j < res.coercions@.len() ==> (#[trigger] res.coercions@[j]) is None
}

/// What checking the function named `name` of `file` owes: one entry per
/// expression, a type for the body, and, when nothing was reported, a body
/// whose type may stand where the declared result type is expected.
pub open spec fn checked(file: File, name: Seq<char>, res: InferenceResult, diags: Seq<Diagnostic>) -> bool {
    &&& res.inferred_types@.len() == file.exprs@.len()
    &&& res.coercions@.len() == file.exprs@.len()
    &&& first_def(file, name) matches Some(i) && {
        let fd = def_fn(file, i);
        &&& fd.body matches Some(b) ==> res.inferred_types@[b.0 as int] is Some
        &&& diags.len() == 0 ==> (fd.body matches Some(b) ==> (res.inferred_types@[b.0 as int] matches Some(t)
            && coercible(lift(t@), lift(type_of_expr(file, fd.ret_type)))))
    }
}

impl<'a> InferenceCtx<'a> {
    /// The sealed types of all inferred expressions, and the coercions.
    pub fn finish(self) -> (res: InferenceResult)
        requires
            self.ok(),
        ensures
            res.inferred_types@.len() == self.inferred_types@.len(),
            forall|k: int| 0 <= k < self.inferred_types@.len() ==> match self.inferred_types@[k] {
                Some(u) => (#[trigger] res.inferred_types@[k]) matches Some(t) && t@ == seal(self.res(u@)),
                None => res.inferred_types@[k] is None,
            },
            res.coercions@ == self.coercions@,
    {
        let ghost s0 = self;
        let mut this = self;
        let mut types: Vec<Option<Type>> = Vec::new();
        let mut i: usize = 0;
        while i < this.inferred_types.len()
            invariant
                this.ok(),
                this.same_state(&s0),
                i <= this.inferred_types@.len(),
                types@.len() == i,
                forall|k: int| 0 <= k < i ==> match this.inferred_types@[k] {
                    Some(u) => (#[trigger] types@[k]) matches Some(t) && t@ == seal(s0.res(u@)),
                    None => types@[k] is None,
                },
            decreases this.inferred_types.len() - i,
        {
            let u = match &this.inferred_types[i] {
                Some(u) => Some(u.copy()),
                None => None,
            };
            let t = match u {
                Some(u) => Some(this.seal_type(&u)),
                None => None,
            };
            types.push(t);
            i += 1;
        }
        InferenceResult { inferred_types: types, coercions: this.coercions }
    }
}

/// Infers and checks the types in the body of the function `f`: its
/// parameters' patterns against their declared types, its body against its
/// declared result type. Returns what was inferred and the errors found.
pub fn check_fn(file: &File, f: FunctionId) -> (r: Result<(InferenceResult, Vec<Diagnostic>), TypeError>)
    requires
        file.wf(),
        first_def(*file, f.name@) is Some,
    ensures
        r matches Ok((res, diags)) ==> checked(*file, f.name@, res, diags@),
        r matches Err(err) ==> names_call(*file, err),
        def_fn(*file, first_def(*file, f.name@)->0).body matches Some(b) ==> (arith(*file, b)
            ==> (r matches Ok((res, _)) && arith_typed(*file, b, res))),
{
    let k = match find_def(file, &f.name) {
        Some(k) => k,
        None => return Err(TypeError::NotAFunction(ExprId(0))),
    };
    let mut ctx = InferenceCtx::new(file, f);
    match &file.defs[k] {
        Def::FnDef(fd) => {
            proof {
                assert(crate::parser::ast::def_refs_ok(file.defs@[k as int], *file));
            }
            let sig = func_signature(file, fd);
            let mut i: usize = 0;
            while i < fd.args.len()
                invariant
                    ctx.ok(),
                    ctx.file == file,
                    file.wf(),
                    i <= fd.args@.len(),
                    sig.args@.len() == fd.args@.len(),
                    forall|j: int| 0 <= j < fd.args@.len() ==> (#[trigger] fd.args@[j]).0.0 < file.patterns@.len(),
                    forall|j: int| 0 <= j < ctx.coercions@.len() ==> (#[trigger] ctx.coercions@[j]) is None,
                decreases fd.args.len() - i,
            {
                let tp = UType::from_type(&sig.args[i]);
                proof {
                    lemma_lift_closed(sig.args@[i as int]@, below(ctx.nvars()));
                }
                let bindings = ctx.check_pat(fd.args[i].0, &tp);
                ctx.extend_all(bindings);
                i += 1;
            }
            match fd.body {
                Some(body) => {
                    let ret = UType::from_type(&sig.ret);
                    proof {
                        lemma_lift_closed(sig.ret@, below(ctx.nvars()));
                    }
                    let ghost before_body = ctx;
                    match ctx.check_expr(body, &ret, false) {
                        Ok(()) => {},
                        Err(err) => return Err(err),
                    }
                    proof {
                        if arith(*file, body) {
                            assert forall|j: int| 0 <= j < ctx.inferred_types@.len() && in_arith(*file, body, j)
                                implies (#[trigger] ctx.inferred_types@[j]) matches Some(u) && ctx.res(u@) == lift(arith_ty(*file, j)) by {
                                assert(lift(arith_ty(*file, j)) == UTypeV::Int || lift(arith_ty(*file, j)) == UTypeV::Bool);
                            }
                        }
                    }
                    proof {
                        if ctx.diagnostics@.len() == 0 {
                            let u = ctx.inferred_types@[body.0 as int]->0;
                            lemma_lift_closed(sig.ret@, below(0));
                            assert(ctx.res(ret@) == lift(sig.ret@));
                            lemma_coercible_seal(ctx.res(u@), lift(sig.ret@));
                            lemma_seal_lift(sig.ret@);
                        }
                    }
                },
                None => {},
            }
            let mut diags: Vec<Diagnostic> = Vec::new();
            std::mem::swap(&mut diags, &mut ctx.diagnostics);
            let ghost pre = ctx;
            let res = ctx.finish();
            proof {
                if let Some(b) = fd.body {
                    if arith(*file, b) {
                        assert forall|j: int| 0 <= j < file.exprs@.len() && in_arith(*file, b, j)
                            implies (#[trigger] res.inferred_types@[j]) matches Some(t) && t@ == arith_ty(*file, j) by {
                            lemma_seal_lift(arith_ty(*file, j));
                        }
                    }
                }
            }
            Ok((res, diags))
        },
    }
}

/// Checks every function of every module of the crate whose root is
/// `file`: for each function, in the order of its module's definitions,
/// what was inferred and the errors found.
pub fn check_crate(file: &File) -> (r: Result<Vec<(FunctionId, InferenceResult, Vec<Diagnostic>)>, TypeError>)
    requires
        file.wf(),
    ensures
        r matches Ok(v) ==> v@.len() == distinct_names(*file, file.defs@.len() as int).len()
            && forall|k: int| 0 <= k < v@.len() ==> {
                &&& (#[trigger] v@[k]).0.name@ == distinct_names(*file, file.defs@.len() as int)[k]
                &&& checked(*file, v@[k].0.name@, v@[k].1, v@[k].2@)
            },
        r matches Err(err) ==> names_call(*file, err),
{
    let tree = mod_tree();
    let mut out: Vec<(FunctionId, InferenceResult, Vec<Diagnostic>)> = Vec::new();
    let mut m: usize = 0;
    while m < tree.len()
        invariant
            file.wf(),
            tree@.len() == 1,
            m <= 1,
            m == 0 ==> out@.len() == 0,
            m == 1 ==> out@.len() == distinct_names(*file, file.defs@.len() as int).len()
                && forall|k: int| 0 <= k < out@.len() ==> {
                    &&& (#[trigger] out@[k]).0.name@ == distinct_names(*file, file.defs@.len() as int)[k]
                    &&& checked(*file, out@[k].0.name@, out@[k].1, out@[k].2@)
                },
        decreases tree.len() - m,
    {
        let def_map = module_def_map(file, tree[m].0);
        let ghost names = distinct_names(*file, file.defs@.len() as int);
        proof {
            assert(def_map.functions@.len() == names.len());
        }
        let mut i: usize = 0;
        while i < def_map.functions.len()
            invariant
                file.wf(),
                m == 0,
                tree@.len() == 1,
                names == distinct_names(*file, file.defs@.len() as int),
                def_map.functions@.map_values(|e: (String, FunctionId)| e.0@) == names,
                forall|j: int| 0 <= j < def_map.functions@.len() ==> (#[trigger] def_map.functions@[j]).1.name@ == def_map.functions@[j].0@,
                i <= def_map.functions@.len(),
                out@.len() == i,
                forall|k: int| 0 <= k < out@.len() ==> {
                    &&& (#[trigger] out@[k]).0.name@ == names[k]
                    &&& checked(*file, out@[k].0.name@, out@[k].1, out@[k].2@)
                },
            decreases def_map.functions.len() - i,
        {
            let entry = &def_map.functions[i];
            let f = FunctionId { name: entry.1.name.clone(), module: entry.1.module };
            let g = FunctionId { name: entry.1.name.clone(), module: entry.1.module };
            proof {
                assert(names[i as int] == def_map.functions@[i as int].0@);
                lemma_distinct_names_defined(*file, file.defs@.len() as int, i as int);
                let w = choose|w: int| 0 <= w < file.defs@.len() as int && w < file.defs@.len() && #[trigger] def_name(*file, w) == names[i as int];
                assert(0 <= w < file.defs@.len() && def_name(*file, w) == f.name@);
            }
            match check_fn(file, f) {
                Ok((res, diags)) => out.push((g, res, diags)),
                Err(err) => return Err(err),
            }
            i += 1;
        }
        m += 1;
    }
    Ok(out)
}

} // verus!
