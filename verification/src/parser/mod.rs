//! Source files and their syntax trees.

pub mod ast;

use crate::def_map::{first_def, FunctionId};
use crate::typecheck::inference::{def_fn, find_def};
use ast::{Def, File, FnDef};
use vstd::prelude::*;

verus! {

/// The definition of the function `f`: the first definition of its name in
/// the file, if there is one.
pub fn func_ast<'a>(file: &'a File, f: &FunctionId) -> (r: Option<&'a FnDef>)
    requires
        file.wf(),
    ensures
        match r {
            Some(fd) => first_def(*file, f.name@) matches Some(i) && 0 <= i < file.defs@.len() && *fd == def_fn(*file, i),
            None => first_def(*file, f.name@) is None,
        },
{
    match find_def(file, &f.name) {
        Some(k) => match &file.defs[k] {
            Def::FnDef(fd) => Some(fd),
        },
        None => None,
    }
}

} // verus!
