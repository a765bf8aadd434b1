//! The functions a module defines, by name.

use crate::mod_tree::ModuleId;
use crate::parser::ast::{Def, File};
use vstd::prelude::*;

verus! {

/// A function: its name and the module that defines it.
pub struct FunctionId {
    pub name: String,
    pub module: ModuleId,
}

/// The functions of a module, each name once, in the order of their first
/// definition.
pub struct DefMap {
    pub functions: Vec<(String, FunctionId)>,
}

/// The name of the `i`-th definition of `f`.
pub open spec fn def_name(f: File, i: int) -> Seq<char> {
    match f.defs@[i] {
        Def::FnDef(fd) => f.idents@[fd.name.0 as int]@,
    }
}

/// The index of the first definition of `f` named `name`.
pub open spec fn first_def(f: File, name: Seq<char>) -> Option<int> {
    if exists|i: int| 0 <= i < f.defs@.len() && def_name(f, i) == name {
        Some(choose|i: int| 0 <= i < f.defs@.len() && def_name(f, i) == name && forall|j: int| 0 <= j < i ==> def_name(f, j) != name)
    } else {
        None
    }
}

/// The names the definitions of `f` give, first occurrences only, in order.
pub open spec fn distinct_names(f: File, n: int) -> Seq<Seq<char>>
    decreases n,
{
    if n <= 0 {
        Seq::empty()
    } else {
        let prev = distinct_names(f, n - 1);
        if prev.contains(def_name(f, n - 1)) {
            prev
        } else {
            prev.push(def_name(f, n - 1))
        }
    }
}

/// Every name the definitions give is the name of some definition.
pub proof fn lemma_distinct_names_defined(f: File, n: int, k: int)
    requires
        0 <= k < distinct_names(f, n).len(),
        n <= f.defs@.len(),
    ensures
        exists|i: int| 0 <= i < n && i < f.defs@.len() && #[trigger] def_name(f, i) == distinct_names(f, n)[k],
    decreases n,
{
    if n > 0 {
        let prev = distinct_names(f, n - 1);
        if k < prev.len() {
            lemma_distinct_names_defined(f, n - 1, k);
        } else {
            assert(def_name(f, n - 1) == distinct_names(f, n)[k]);
        }
    }
}

/// The names the definitions give are pairwise different.
pub proof fn lemma_distinct_names_unique(f: File, n: int)
    ensures
        forall|j: int, k: int| 0 <= j < k < distinct_names(f, n).len() ==> distinct_names(f, n)[j] != distinct_names(f, n)[k],
    decreases n,
{
    if n > 0 {
        lemma_distinct_names_unique(f, n - 1);
        let prev = distinct_names(f, n - 1);
        if !prev.contains(def_name(f, n - 1)) {
            assert forall|j: int, k: int| 0 <= j < k < distinct_names(f, n).len() implies distinct_names(f, n)[j] != distinct_names(f, n)[k] by {
                if k == prev.len() {
                    assert(distinct_names(f, n)[j] == prev[j]);
                }
            }
        }
    }
}

impl DefMap {
    /// The index of the function named `name`.
    pub fn get(&self, name: &String) -> (res: Option<usize>)
        ensures
            res matches Some(i) ==> i < self.functions@.len() && self.functions@[i as int].0@ == name@,
            res is None ==> forall|i: int| 0 <= i < self.functions@.len() ==> (#[trigger] self.functions@[i]).0@ != name@,
    {
        let mut i: usize = 0;
        while i < self.functions.len()
            invariant
                i <= self.functions@.len(),
                forall|j: int| 0 <= j < i ==> (#[trigger] self.functions@[j]).0@ != name@,
            decreases self.functions.len() - i,
        {
            if self.functions[i].0 == *name {
                return Some(i);
            }
            i += 1;
        }
        None
    }
}

/// The functions the module `m` defines: every name defined in `file`, once.
pub fn module_def_map(file: &File, m: ModuleId) -> (res: DefMap)
    requires
        file.wf(),
    ensures
        res.functions@.map_values(|e: (String, FunctionId)| e.0@) == distinct_names(*file, file.defs@.len() as int),
        forall|i: int| 0 <= i < res.functions@.len() ==> (#[trigger] res.functions@[i]).1.name@ == res.functions@[i].0@
            && res.functions@[i].1.module == m,
{
    let mut functions: Vec<(String, FunctionId)> = Vec::new();
    let mut map = DefMap { functions };
    let mut i: usize = 0;
    while i < file.defs.len()
        invariant
            file.wf(),
            i <= file.defs@.len(),
            map.functions@.map_values(|e: (String, FunctionId)| e.0@) == distinct_names(*file, i as int),
            forall|k: int| 0 <= k < map.functions@.len() ==> (#[trigger] map.functions@[k]).1.name@ == map.functions@[k].0@
                && map.functions@[k].1.module == m,
        decreases file.defs.len() - i,
    {
        let ghost prev = map.functions@.map_values(|e: (String, FunctionId)| e.0@);
        match &file.defs[i] {
            Def::FnDef(fd) => {
                assert(crate::parser::ast::def_refs_ok(file.defs@[i as int], *file));
                let name = &file.idents[fd.name.0];
                assert(def_name(*file, i as int) == name@);
                match map.get(name) {
                    Some(k) => {
                        assert(prev[k as int] == name@);
                        assert(prev.contains(name@));
                    },
                    None => {
                        assert(!prev.contains(name@));
                        let id = FunctionId { name: name.clone(), module: m };
                        map.functions.push((name.clone(), id));
                        assert(map.functions@.map_values(|e: (String, FunctionId)| e.0@) =~= prev.push(name@));
                    },
                }
            },
        }
        i += 1;
    }
    map
}

} // verus!
