//! Lowering of typed functions to the register IR.

pub mod ir;
pub mod lower;
pub mod place;
pub mod text;
pub mod value;

use crate::def_map::{def_name, distinct_names, first_def, lemma_distinct_names_defined, module_def_map, FunctionId};
use crate::layout::{try_get_size, type_size};
use crate::mod_tree::mod_tree;
use crate::parser::ast::{File, FnDef};
use crate::parser::func_ast;
use crate::resolve::{func_signature, type_of_expr};
use crate::typecheck::inference::def_fn;
use crate::typecheck::{arith_typed, check_fn, names_call, InferenceResult};
use crate::typecheck::check::arith;
use crate::layout::has_layout;
use ir::{Func, IrBuilder, Prog, Reg, Terminator};
use lower::{lemma_arith_simple, regs_needed, simple_lowered, LowerCtx, LowerError};
use place::Place;
use value::Value;
use vstd::prelude::*;

verus! {

/// Lowers every function of every module of the crate whose root is `file`
/// that has a body: the program, each function under its name, with the
/// registers and the final return that `lower_function` promises.
#[verifier::rlimit(60)]
pub fn compile(file: &File) -> (r: Result<Prog, LowerError>)
    requires
        file.wf(),
    ensures
        r matches Ok(p) ==> forall|k: int| 0 <= k < p.funcs@.len() ==> {
            &&& distinct_names(*file, file.defs@.len() as int).contains((#[trigger] p.funcs@[k]).0@)
            &&& def_fn(*file, first_def(*file, p.funcs@[k].0@)->0).body is Some
            &&& p.funcs@[k].1.valid()
            &&& fn_frame(*file, def_fn(*file, first_def(*file, p.funcs@[k].0@)->0), p.funcs@[k].1)
        },
        r matches Ok(p) ==> forall|j: int, k: int| 0 <= j < k < p.funcs@.len() ==> (#[trigger] p.funcs@[j]).0@ != (#[trigger] p.funcs@[k]).0@,
        r matches Ok(p) ==> forall|j: int| 0 <= j < distinct_names(*file, file.defs@.len() as int).len()
            && def_fn(*file, first_def(*file, #[trigger] distinct_names(*file, file.defs@.len() as int)[j])->0).body is Some
            ==> exists|k: int| 0 <= k < p.funcs@.len() && (#[trigger] p.funcs@[k]).0@ == distinct_names(*file, file.defs@.len() as int)[j],
        r matches Err(LowerError::Typing(err)) ==> names_call(*file, err),
        crate_owed(*file) ==> r is Ok,
{
    let tree = mod_tree();
    let mut funcs: Vec<(String, Func)> = Vec::new();
    let mut m: usize = 0;
    while m < tree.len()
        invariant
            file.wf(),
            tree@.len() == 1,
            m <= 1,
            forall|k: int| 0 <= k < funcs@.len() ==> {
                &&& distinct_names(*file, file.defs@.len() as int).contains((#[trigger] funcs@[k]).0@)
                &&& def_fn(*file, first_def(*file, funcs@[k].0@)->0).body is Some
                &&& funcs@[k].1.valid()
                &&& fn_frame(*file, def_fn(*file, first_def(*file, funcs@[k].0@)->0), funcs@[k].1)
            },
            forall|j: int, k: int| 0 <= j < k < funcs@.len() ==> (#[trigger] funcs@[j]).0@ != (#[trigger] funcs@[k]).0@,
            m == 0 ==> funcs@.len() == 0,
            m == 1 ==> forall|j: int| 0 <= j < distinct_names(*file, file.defs@.len() as int).len()
                && def_fn(*file, first_def(*file, #[trigger] distinct_names(*file, file.defs@.len() as int)[j])->0).body is Some
                ==> exists|k: int| 0 <= k < funcs@.len() && (#[trigger] funcs@[k]).0@ == distinct_names(*file, file.defs@.len() as int)[j],
        decreases tree.len() - m,
    {
        let def_map = module_def_map(file, tree[m].0);
        let ghost names = distinct_names(*file, file.defs@.len() as int);
        let mut i: usize = 0;
        while i < def_map.functions.len()
            invariant
                file.wf(),
                m == 0,
                tree@.len() == 1,
                names == distinct_names(*file, file.defs@.len() as int),
                def_map.functions@.map_values(|e: (String, FunctionId)| e.0@) == names,
                forall|j: int| 0 <= j < def_map.functions@.len() ==> (#[trigger] def_map.functions@[j]).1.name@ == def_map.functions@[j].0@,
                i <= def_map.functions@.len(),
                forall|k: int| 0 <= k < funcs@.len() ==> {
                    &&& (exists|j: int| 0 <= j < i && #[trigger] names[j] == funcs@[k].0@)
                    &&& names.contains((#[trigger] funcs@[k]).0@)
                    &&& def_fn(*file, first_def(*file, funcs@[k].0@)->0).body is Some
                    &&& funcs@[k].1.valid()
                    &&& fn_frame(*file, def_fn(*file, first_def(*file, funcs@[k].0@)->0), funcs@[k].1)
                },
                forall|j: int, k: int| 0 <= j < k < funcs@.len() ==> (#[trigger] funcs@[j]).0@ != (#[trigger] funcs@[k]).0@,
                forall|j: int| 0 <= j < i && def_fn(*file, first_def(*file, #[trigger] names[j])->0).body is Some
                    ==> exists|k: int| 0 <= k < funcs@.len() && (#[trigger] funcs@[k]).0@ == names[j],
            decreases def_map.functions.len() - i,
        {
            let entry = &def_map.functions[i];
            let name = entry.1.name.clone();
            let f = FunctionId { name: entry.1.name.clone(), module: entry.1.module };
            proof {
                assert(names[i as int] == def_map.functions@[i as int].0@);
                lemma_distinct_names_defined(*file, file.defs@.len() as int, i as int);
                let w = choose|w: int| 0 <= w < file.defs@.len() as int && w < file.defs@.len() && #[trigger] def_name(*file, w) == names[i as int];
                assert(0 <= w < file.defs@.len() && def_name(*file, w) == f.name@);
                lemma_names_distinct(names, file, i as int);
            }
            match lower_function(file, f) {
                Ok(Some(func)) => {
                    proof {
                        assert(names.contains(name@));
                        assert forall|k: int| 0 <= k < funcs@.len() implies (#[trigger] funcs@[k]).0@ != name@ by {
                            let j = choose|j: int| 0 <= j < i && #[trigger] names[j] == funcs@[k].0@;
                        }
                    }
                    let ghost before = funcs@;
                    funcs.push((name, func));
                    proof {
                        assert(funcs@[before.len() as int].0@ == names[i as int]);
                        assert forall|j: int| 0 <= j < i + 1 && def_fn(*file, first_def(*file, #[trigger] names[j])->0).body is Some
                            implies exists|k: int| 0 <= k < funcs@.len() && (#[trigger] funcs@[k]).0@ == names[j] by {
                            if j < i {
                                let k = choose|k: int| 0 <= k < before.len() && (#[trigger] before[k]).0@ == names[j];
                                assert(funcs@[k] == before[k]);
                            }
                        }
                    }
                },
                Ok(None) => {},
                Err(err) => {
                    proof {
                        if crate_owed(*file) {
                            assert(names[i as int] == f.name@);
                            let fd = def_fn(*file, first_def(*file, names[i as int])->0);
                            assert((fd.body is None && fd.ext) || arith_fn(*file, fd));
                        }
                    }
                    return Err(err);
                },
            }
            i += 1;
        }
        m += 1;
    }
    Ok(Prog { funcs })
}

/// The names of distinct definitions are pairwise different.
proof fn lemma_names_distinct(names: Seq<Seq<char>>, file: &File, i: int)
    requires
        names == distinct_names(*file, file.defs@.len() as int),
        0 <= i < names.len(),
    ensures
        forall|j: int| 0 <= j < i ==> names[j] != names[i],
{
    crate::def_map::lemma_distinct_names_unique(*file, file.defs@.len() as int);
}

/// A crate that lowering owes: each function is external without a body, or
/// one that lowering owes (`arith_fn`).
pub open spec fn crate_owed(file: File) -> bool {
    forall|j: int| 0 <= j < distinct_names(file, file.defs@.len() as int).len() ==> {
        let fd = def_fn(file, first_def(file, #[trigger] distinct_names(file, file.defs@.len() as int)[j])->0);
        (fd.body is None && fd.ext) || arith_fn(file, fd)
    }
}

/// A function that lowering owes: its body is an arithmetic expression, its
/// parameters are variables or wildcards, every type in its signature has a
/// layout, and the registers it may need fit.
pub open spec fn arith_fn(file: File, fd: FnDef) -> bool {
    &&& fd.body matches Some(b) && arith(file, b)
        && 3 * fd.args@.len() + regs_needed(file, b) + 8 <= usize::MAX
    &&& has_layout(type_of_expr(file, fd.ret_type))
    &&& forall|j: int| 0 <= j < fd.args@.len() ==> {
        &&& (file.patterns@[(#[trigger] fd.args@[j]).0.0 as int].0 is Var || file.patterns@[fd.args@[j].0.0 as int].0 is Wildcard)
        &&& has_layout(type_of_expr(file, fd.args@[j].1))
    }
}

/// The registers of the lowered function `func` of `fd`: a result larger
/// than one cell is written through a pointer that arrives in register 0,
/// the parameters take the registers after it, and the function returns
/// register 0 in that case, otherwise a register after the parameters.
pub open spec fn fn_frame(file: File, fd: FnDef, func: Func) -> bool {
    let n = fd.args@.len();
    let big = type_size(type_of_expr(file, fd.ret_type)) > 1;
    &&& func.register_count >= n + (if big { 1nat } else { 0nat })
    &&& exists|b: int| 0 <= b < func.blocks@.len() && ((#[trigger] func.blocks@[b]).terminator matches Terminator::Return(r)
        && (if big { r == Reg(0) } else { r.0 >= n }))
}

/// Lowers the function `f` to the register IR: `None` for an external
/// function without a body.
pub fn lower_function(file: &File, f: FunctionId) -> (r: Result<Option<Func>, LowerError>)
    requires
        file.wf(),
        first_def(*file, f.name@) is Some,
    ensures
        r matches Ok(None) ==> ({
            let fd = def_fn(*file, first_def(*file, f.name@)->0);
            fd.body is None && fd.ext
        }),
        r matches Ok(Some(func)) ==> def_fn(*file, first_def(*file, f.name@)->0).body is Some && func.valid(),
        ({
            let fd = def_fn(*file, first_def(*file, f.name@)->0);
            fd.body is None && !fd.ext
        }) ==> r == Err::<Option<Func>, LowerError>(LowerError::MissingBody),
        r matches Err(LowerError::Typing(err)) ==> names_call(*file, err),
        r matches Ok(Some(func)) ==> fn_frame(*file, def_fn(*file, first_def(*file, f.name@)->0), func),
        arith_fn(*file, def_fn(*file, first_def(*file, f.name@)->0)) ==> r matches Ok(Some(_)),
        ({
            let fd = def_fn(*file, first_def(*file, f.name@)->0);
            fd.body is None && fd.ext
        }) ==> r == Ok::<Option<Func>, LowerError>(None),
{
    let ghost fname = f.name@;
    let ghost ok = arith_fn(*file, def_fn(*file, first_def(*file, f.name@)->0));
    let fd: &FnDef = match func_ast(file, &f) {
        Some(fd) => fd,
        None => return Err(LowerError::MissingBody),
    };
    proof {
        let k = first_def(*file, f.name@)->0;
        assert(crate::parser::ast::def_refs_ok(file.defs@[k], *file));
    }
    let body = match fd.body {
        Some(b) => b,
        None => {
            if fd.ext {
                return Ok(None);
            }
            return Err(LowerError::MissingBody);
        },
    };
    let builder = IrBuilder::new();
    let (result, _) = match check_fn(file, f) {
        Ok(r) => r,
        Err(err) => return Err(LowerError::Typing(err)),
    };
    let ghost res0 = result;
    let InferenceResult { inferred_types: types, coercions } = result;
    let mut scopes: Vec<Vec<(crate::parser::ast::Ident, Value)>> = Vec::new();
    scopes.push(Vec::new());
    let mut ctx = LowerCtx { file, scopes, builder, types: &types, coercions: &coercions };
    let sig = func_signature(file, fd);
    let ret_size = match try_get_size(&sig.ret) {
        Some(s) => s,
        None => return Err(LowerError::NoLayout),
    };
    let ghost big = type_size(type_of_expr(*file, fd.ret_type)) > 1;
    let ghost bign: nat = if big { 1nat } else { 0nat };
    proof {
        assert(fd.args@.len() == sig.args@.len());
        assert(big == (ret_size > 1));
    }
    let sret_place = if ret_size > 1 {
        // the first register holds the address the result is written to
        let sret_reg = ctx.builder.new_reg();
        Some((sret_reg, Place::DynamicPtr { base: sret_reg, offset: 0 }))
    } else {
        None
    };
    let mut param_regs: Vec<Reg> = Vec::new();
    let mut i: usize = 0;
    while i < sig.args.len()
        invariant
            ctx.ok(),
            ctx.file == file,
            file.wf(),
            def_fn(*file, first_def(*file, fname)->0).body is Some,
            fname == f.name@,
            param_regs@.len() == i,
            forall|j: int| 0 <= j < param_regs@.len() ==> (#[trigger] param_regs@[j]).0 < ctx.builder.next_reg,
            sret_place matches Some((r, p)) ==> r.0 < ctx.builder.next_reg && ctx.place_ok(p),
            i <= sig.args@.len(),
            ctx.builder.next_reg == i + bign,
            (sret_place is Some) == big,
            sret_place matches Some((r, _)) ==> r == Reg(0),
            bign == (if big { 1nat } else { 0nat }),
            fd == def_fn(*file, first_def(*file, fname)->0),
            ok == arith_fn(*file, *fd),
            sig.args@.len() == fd.args@.len(),
            ctx.types@ == res0.inferred_types@,
            ctx.coercions@ == res0.coercions@,
        decreases sig.args.len() - i,
    {
        if ctx.builder.next_reg == usize::MAX {
            return Err(LowerError::TooLarge);
        }
        param_regs.push(ctx.builder.new_reg());
        i += 1;
    }
    let mut arg_id: usize = 0;
    while arg_id < fd.args.len() && arg_id < sig.args.len()
        invariant
            ctx.ok(),
            ctx.file == file,
            file.wf(),
            def_fn(*file, first_def(*file, fname)->0).body is Some,
            fname == f.name@,
            param_regs@.len() == sig.args@.len(),
            forall|j: int| 0 <= j < param_regs@.len() ==> (#[trigger] param_regs@[j]).0 < ctx.builder.next_reg,
            sret_place matches Some((r, p)) ==> r.0 < ctx.builder.next_reg && ctx.place_ok(p),
            forall|j: int| 0 <= j < fd.args@.len() ==> (#[trigger] fd.args@[j]).0.0 < file.patterns@.len(),
            ctx.builder.next_reg >= sig.args@.len() + bign,
            (sret_place is Some) == big,
            sret_place matches Some((r, _)) ==> r == Reg(0),
            bign == (if big { 1nat } else { 0nat }),
            arg_id <= fd.args@.len(),
            fd == def_fn(*file, first_def(*file, fname)->0),
            ok == arith_fn(*file, *fd),
            ok ==> ctx.builder.next_reg <= sig.args@.len() + bign + 2 * arg_id,
            forall|j: int| 0 <= j < sig.args@.len() ==> (#[trigger] sig.args@[j])@ == type_of_expr(*file, fd.args@[j].1),
            sig.args@.len() == fd.args@.len(),
            ctx.types@ == res0.inferred_types@,
            ctx.coercions@ == res0.coercions@,
            ok ==> arith_typed(*file, fd.body->0, res0),
        decreases fd.args.len() - arg_id,
    {
        let reg = param_regs[arg_id];
        let tp = &sig.args[arg_id];
        let size = match try_get_size(tp) {
            Some(s) => s,
            None => return Err(LowerError::NoLayout),
        };
        let arg_val = if size == 1 {
            Value::LVal(Place::Reg(reg))
        } else {
            Value::LVal(Place::DynamicPtr { base: reg, offset: 0 })
        };
        ctx.lower_pat(fd.args[arg_id].0, arg_val, None, tp)?;
        arg_id += 1;
    }
    let (reg, place) = match sret_place {
        Some(p) => p,
        None => {
            if ctx.builder.next_reg == usize::MAX {
                return Err(LowerError::TooLarge);
            }
            let reg = ctx.builder.new_reg();
            (reg, Place::Reg(reg))
        },
    };
    proof {
        assert(big ==> reg == Reg(0));
        assert(!big ==> reg.0 >= sig.args@.len());
        if ok {
            lemma_arith_simple(ctx, body);
            reveal(simple_lowered);
        }
    }
    ctx.lower_value(body, Some(place))?;
    let mut builder = ctx.builder;
    builder.finish_block(Terminator::Return(reg));
    let func = Func { register_count: builder.next_reg, blocks: builder.blocks, stack_slots: builder.stack_slots };
    proof {
        let b = builder.current_block.0 as int;
        assert(func.blocks@[b].terminator == Terminator::Return(reg));
        assert(fd.args@.len() == sig.args@.len());
    }
    Ok(Some(func))
}

} // verus!
