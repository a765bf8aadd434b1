//! The inference context: the unification table, the scopes of local
//! names, and what inference has found out about each expression so far.

pub mod compat;
pub mod subst;
pub mod tp;

use crate::def_map::{def_name, first_def, FunctionId};
use crate::diagnostic::Diagnostic;
use crate::parser::ast::{Def, File, FnDef, Ident, PatternData};
use crate::resolve::{func_signature, type_of_expr};
use crate::tp::{types_view, TypeV};
use crate::typecheck::Coercion;
use compat::{lemma_refines_bind, lemma_refines_push, lemma_refines_refl, lemma_refines_union, refines};
use subst::{
    all_vars, apply, below, bind_of, bind_sol, free_count, free_in, lemma_all_vars_weaken, lemma_apply_bind,
    lemma_bind_ok, lemma_push_ok, lemma_subst_absent, lemma_union_ok, lemma_view_apply, other_than, rename_sol,
    resolve_var, table_ok, union_of, vars_below, view_of,
};
use tp::{
    lift, lift_seq, opt_view, uf_contents, uf_len, uf_new, uf_new_key, uf_probe_value, uf_union, uf_union_value, UType, UTypeV,
    UTypeView, UnifTable, UnifVar,
};
use vstd::prelude::*;

verus! {

/// The state of inference over the body of one function.
pub struct InferenceCtx<'a> {
    pub unif: UnifTable,
    /// The fully resolved type of every bound root of the table.
    pub sol: Ghost<Seq<UTypeV>>,
    /// The local names in scope, innermost scope last; within a scope the
    /// latest binding of a name is the last one.
    pub scopes: Vec<Vec<(Ident, UType, bool)>>,
    pub f: FunctionId,
    pub file: &'a File,
    /// The type inferred for each expression, by expression id.
    pub inferred_types: Vec<Option<UType>>,
    /// The implicit conversion of each expression, by expression id.
    pub coercions: Vec<Option<Coercion>>,
    /// The errors reported so far, in order.
    pub diagnostics: Vec<Diagnostic>,
}

/// The text of the identifier `x`.
pub open spec fn ident_text(f: File, x: Ident) -> Seq<char> {
    f.idents@[x.0 as int]@
}

/// The function definition at index `i`.
pub open spec fn def_fn(f: File, i: int) -> FnDef {
    match f.defs@[i] {
        Def::FnDef(fd) => fd,
    }
}

/// The type of the function `fd`, as its annotations give it.
pub open spec fn fn_type(f: File, fd: FnDef) -> TypeV {
    TypeV::Fn(
        Seq::new(fd.args@.len(), |k: int| type_of_expr(f, fd.args@[k].1)),
        Box::new(type_of_expr(f, fd.ret_type)),
    )
}

/// `x` is the name of a variable pattern of `f`.
pub open spec fn pattern_name(f: File, x: Ident) -> bool {
    exists|p: int| 0 <= p < f.patterns@.len() && (#[trigger] f.patterns@[p]).0 == PatternData::Var { name: x, is_mut: true }
        || 0 <= p < f.patterns@.len() && f.patterns@[p].0 == PatternData::Var { name: x, is_mut: false }
}

/// The type of the function of the module named `name`: the one its first
/// definition of that name gives.
pub open spec fn global_type(f: File, name: Seq<char>) -> Option<UTypeV> {
    match first_def(f, name) {
        Some(i) => Some(lift(fn_type(f, def_fn(f, i)))),
        None => None,
    }
}

/// The latest binding of `name` in one scope.
pub open spec fn scope_find(s: Seq<(Ident, UType, bool)>, f: File, name: Seq<char>) -> Option<(UTypeV, bool)>
    decreases s.len(),
{
    if s.len() == 0 {
        None
    } else if ident_text(f, s.last().0) == name {
        Some((s.last().1@, s.last().2))
    } else {
        scope_find(s.drop_last(), f, name)
    }
}

/// The binding of `name` in the innermost scope that binds it.
pub open spec fn scopes_find(ss: Seq<Vec<(Ident, UType, bool)>>, f: File, name: Seq<char>) -> Option<(UTypeV, bool)>
    decreases ss.len(),
{
    if ss.len() == 0 {
        None
    } else {
        match scope_find(ss.last()@, f, name) {
            Some(r) => Some(r),
            None => scopes_find(ss.drop_last(), f, name),
        }
    }
}

/// A name that one scope binds is the name of one of its entries.
pub proof fn lemma_scope_find_some(s: Seq<(Ident, UType, bool)>, f: File, name: Seq<char>)
    requires
        scope_find(s, f, name) is Some,
    ensures
        exists|j: int| 0 <= j < s.len() && ident_text(f, (#[trigger] s[j]).0) == name,
    decreases s.len(),
{
    if ident_text(f, s.last().0) != name {
        lemma_scope_find_some(s.drop_last(), f, name);
        let j = choose|j: int| 0 <= j < s.drop_last().len() && ident_text(f, (#[trigger] s.drop_last()[j]).0) == name;
        assert(s[j] == s.drop_last()[j]);
    } else {
        assert(ident_text(f, s[s.len() - 1].0) == name);
    }
}

/// A name that the scopes bind is the name of one of their entries.
pub proof fn lemma_scopes_find_some(ss: Seq<Vec<(Ident, UType, bool)>>, f: File, name: Seq<char>)
    requires
        scopes_find(ss, f, name) is Some,
    ensures
        exists|i: int, j: int| 0 <= i < ss.len() && 0 <= j < ss[i]@.len() && ident_text(f, (#[trigger] ss[i]@[j]).0) == name,
    decreases ss.len(),
{
    if scope_find(ss.last()@, f, name) is Some {
        lemma_scope_find_some(ss.last()@, f, name);
        let j = choose|j: int| 0 <= j < ss.last()@.len() && ident_text(f, (#[trigger] ss.last()@[j]).0) == name;
        assert(ss[ss.len() - 1]@[j] == ss.last()@[j]);
    } else {
        lemma_scopes_find_some(ss.drop_last(), f, name);
        let (i, j) = choose|i: int, j: int| 0 <= i < ss.drop_last().len() && 0 <= j < ss.drop_last()[i]@.len()
            && ident_text(f, (#[trigger] ss.drop_last()[i]@[j]).0) == name;
        assert(ss[i] == ss.drop_last()[i]);
    }
}

impl<'a> InferenceCtx<'a> {
    /// What the unification table holds.
    pub open spec fn tbl(&self) -> Seq<(nat, Option<UTypeV>)> {
        uf_contents(self.unif)
    }

    /// The number of unification variables.
    pub open spec fn nvars(&self) -> nat {
        self.tbl().len()
    }

    /// `t` with every variable resolved as far as the table knows.
    pub open spec fn res(&self, t: UTypeV) -> UTypeV {
        apply(t, self.tbl(), self.sol@)
    }

    /// The context is consistent: the table with its resolved types, the
    /// stored types only mention known variables, one entry per expression,
    /// and at least one scope.
    pub open spec fn ok(&self) -> bool {
        &&& table_ok(self.tbl(), self.sol@)
        &&& self.file.wf()
        &&& self.scopes@.len() > 0
        &&& forall|i: int, j: int| 0 <= i < self.scopes@.len() && 0 <= j < self.scopes@[i]@.len() ==> {
            &&& vars_below((#[trigger] self.scopes@[i]@[j]).1@, self.nvars())
            &&& self.scopes@[i]@[j].0.0 < self.file.idents@.len()
            &&& pattern_name(*self.file, self.scopes@[i]@[j].0)
        }
        &&& self.inferred_types@.len() == self.file.exprs@.len()
        &&& self.coercions@.len() == self.file.exprs@.len()
        &&& forall|k: int| 0 <= k < self.inferred_types@.len() && (#[trigger] self.inferred_types@[k]) is Some
            ==> vars_below(self.inferred_types@[k]->0@, self.nvars())
    }

    /// What a name stands for: its local binding, else the function of the
    /// module of that name; with whether it may be mutated.
    pub open spec fn lookup_spec(&self, name: Seq<char>) -> Option<(UTypeV, bool)> {
        match scopes_find(self.scopes@, *self.file, name) {
            Some(r) => Some(r),
            None => match global_type(*self.file, name) {
                Some(t) => Some((t, false)),
                None => None,
            },
        }
    }

    /// Everything but the table (and the resolved types) is as in `other`.
    pub open spec fn same_but_table(&self, other: &Self) -> bool {
        &&& self.scopes == other.scopes
        &&& self.f == other.f
        &&& self.file == other.file
        &&& self.inferred_types == other.inferred_types
        &&& self.coercions == other.coercions
        &&& self.diagnostics == other.diagnostics
    }

    /// The table and everything else is as in `other`.
    pub open spec fn same_state(&self, other: &Self) -> bool {
        &&& self.same_but_table(other)
        &&& self.tbl() == other.tbl()
        &&& self.sol == other.sol
    }

    /// `self` continues `other`: the table refines the old one, the file is
    /// the same, and the old diagnostics are still the first ones.
    pub open spec fn continues(&self, other: &Self) -> bool {
        &&& refines(other.tbl(), other.sol@, self.tbl(), self.sol@)
        &&& self.file == other.file
        &&& self.f == other.f
        &&& self.diagnostics@.len() >= other.diagnostics@.len()
        &&& self.diagnostics@.subrange(0, other.diagnostics@.len() as int) == other.diagnostics@
    }

    pub fn new(file: &'a File, f: FunctionId) -> (ctx: Self)
        requires
            file.wf(),
        ensures
            ctx.ok(),
            ctx.file == file,
            ctx.f == f,
            ctx.nvars() == 0,
            ctx.scopes@.len() == 1,
            ctx.scopes@[0]@.len() == 0,
            forall|k: int| 0 <= k < ctx.inferred_types@.len() ==> (#[trigger] ctx.inferred_types@[k]) is None,
            forall|k: int| 0 <= k < ctx.coercions@.len() ==> (#[trigger] ctx.coercions@[k]) is None,
            ctx.diagnostics@.len() == 0,
    {
        let mut inferred_types: Vec<Option<UType>> = Vec::new();
        let mut coercions: Vec<Option<Coercion>> = Vec::new();
        let mut i: usize = 0;
        while i < file.exprs.len()
            invariant
                i <= file.exprs@.len(),
                inferred_types@.len() == i,
                coercions@.len() == i,
                forall|k: int| 0 <= k < i ==> (#[trigger] inferred_types@[k]) is None,
                forall|k: int| 0 <= k < i ==> (#[trigger] coercions@[k]) is None,
            decreases file.exprs.len() - i,
        {
            inferred_types.push(None);
            coercions.push(None);
            i += 1;
        }
        let mut scopes: Vec<Vec<(Ident, UType, bool)>> = Vec::new();
        scopes.push(Vec::new());
        InferenceCtx {
            unif: uf_new(),
            sol: Ghost(Seq::empty()),
            scopes,
            f,
            file,
            inferred_types,
            coercions,
            diagnostics: Vec::new(),
        }
    }

    /// The depth of the scopes.
    pub fn lvl(&self) -> (r: u32)
        ensures
            r == self.scopes@.len() as u32,
    {
        self.scopes.len() as u32
    }

    /// Binds `x` to `tp` in the innermost scope.
    pub fn extend(&mut self, x: Ident, tp: UType, is_mut: bool)
        requires
            old(self).ok(),
            pattern_name(*old(self).file, x),
            vars_below(tp@, old(self).nvars()),
            x.0 < old(self).file.idents@.len(),
        ensures
            final(self).ok(),
            final(self).tbl() == old(self).tbl(),
            final(self).sol == old(self).sol,
            final(self).f == old(self).f,
            final(self).file == old(self).file,
            final(self).inferred_types == old(self).inferred_types,
            final(self).coercions == old(self).coercions,
            final(self).diagnostics == old(self).diagnostics,
            final(self).scopes@.len() == old(self).scopes@.len(),
            final(self).scopes@.drop_last() == old(self).scopes@.drop_last(),
            final(self).scopes@.last()@ == old(self).scopes@.last()@.push((x, tp, is_mut)),
    {
        let ghost old_scopes = self.scopes@;
        let ghost entry = (x, tp, is_mut);
        match self.scopes.pop() {
            Some(mut s) => {
                s.push((x, tp, is_mut));
                self.scopes.push(s);
                assert(self.scopes@.drop_last() =~= old_scopes.drop_last());
                assert forall|i: int, j: int| 0 <= i < self.scopes@.len() && 0 <= j < self.scopes@[i]@.len() implies {
                    &&& vars_below((#[trigger] self.scopes@[i]@[j]).1@, self.nvars())
                    &&& self.scopes@[i]@[j].0.0 < self.file.idents@.len()
                } by {
                    if i < self.scopes@.len() - 1 {
                        assert(self.scopes@[i] == old_scopes[i]);
                    } else if j < old_scopes[i]@.len() {
                        assert(self.scopes@[i]@[j] == old_scopes[i]@[j]);
                    }
                }
            },
            None => {},
        }
    }

    /// Opens a new, innermost scope.
    pub fn push_scope(&mut self)
        requires
            old(self).ok(),
        ensures
            final(self).ok(),
            final(self).tbl() == old(self).tbl(),
            final(self).sol == old(self).sol,
            final(self).f == old(self).f,
            final(self).file == old(self).file,
            final(self).inferred_types == old(self).inferred_types,
            final(self).coercions == old(self).coercions,
            final(self).diagnostics == old(self).diagnostics,
            final(self).scopes@.len() == old(self).scopes@.len() + 1,
            final(self).scopes@.drop_last() == old(self).scopes@,
            final(self).scopes@.last()@.len() == 0,
    {
        self.scopes.push(Vec::new());
    }

    /// Closes the innermost scope.
    pub fn pop_scope(&mut self)
        requires
            old(self).ok(),
            old(self).scopes@.len() > 1,
        ensures
            final(self).ok(),
            final(self).tbl() == old(self).tbl(),
            final(self).sol == old(self).sol,
            final(self).f == old(self).f,
            final(self).file == old(self).file,
            final(self).inferred_types == old(self).inferred_types,
            final(self).coercions == old(self).coercions,
            final(self).diagnostics == old(self).diagnostics,
            final(self).scopes@ == old(self).scopes@.drop_last(),
    {
        let _ = self.scopes.pop();
    }

    /// What the name `x` stands for, and whether it may be mutated.
    pub fn lookup(&self, x: Ident) -> (r: Option<(UType, bool)>)
        requires
            self.ok(),
            x.0 < self.file.idents@.len(),
        ensures
            match r {
                Some((t, m)) => self.lookup_spec(ident_text(*self.file, x)) == Some((t@, m)),
                None => self.lookup_spec(ident_text(*self.file, x)) is None,
            },
            r matches Some((t, _)) ==> vars_below(t@, self.nvars()),
    {
        let ghost name = ident_text(*self.file, x);
        let name_s = &self.file.idents[x.0];
        let mut i = self.scopes.len();
        assert(self.scopes@.subrange(0, i as int) =~= self.scopes@);
        while i > 0
            invariant
                self.ok(),
                i <= self.scopes@.len(),
                name_s@ == name,
                name == ident_text(*self.file, x),
                scopes_find(self.scopes@, *self.file, name) == scopes_find(self.scopes@.subrange(0, i as int), *self.file, name),
            decreases i,
        {
            let scope = &self.scopes[i - 1];
            let ghost ss = self.scopes@.subrange(0, i as int);
            assert(ss.last() == scope);
            assert(ss.drop_last() =~= self.scopes@.subrange(0, i - 1));
            let mut j = scope.len();
            assert(scope@.subrange(0, j as int) =~= scope@);
            while j > 0
                invariant
                    self.ok(),
                    0 < i <= self.scopes@.len(),
                    scope == self.scopes@[i - 1],
                    ss == self.scopes@.subrange(0, i as int),
                    ss.last() == scope,
                    scopes_find(self.scopes@, *self.file, name) == scopes_find(ss, *self.file, name),
                    j <= scope@.len(),
                    name_s@ == name,
                    name == ident_text(*self.file, x),
                    scope_find(scope@, *self.file, name) == scope_find(scope@.subrange(0, j as int), *self.file, name),
                decreases j,
            {
                let entry = &scope[j - 1];
                let ghost s = scope@.subrange(0, j as int);
                assert(s.last() == *entry);
                assert(s.drop_last() =~= scope@.subrange(0, j - 1));
                assert(entry.0.0 < self.file.idents@.len());
                if self.file.idents[entry.0.0] == *name_s {
                    proof {
                        assert(vars_below(self.scopes@[i - 1]@[j - 1].1@, self.nvars()));
                        assert(scope_find(s, *self.file, name) == Some((entry.1@, entry.2)));
                        assert(scopes_find(ss, *self.file, name) == Some((entry.1@, entry.2)));
                    }
                    let t = entry.1.copy();
                    proof {
                        assert(self.lookup_spec(name) == Some((t@, entry.2)));
                    }
                    return Some((t, entry.2));
                }
                j -= 1;
            }
            assert(scope@.subrange(0, 0) =~= Seq::<(Ident, UType, bool)>::empty());
            i -= 1;
        }
        assert(self.scopes@.subrange(0, 0) =~= Seq::<Vec<(Ident, UType, bool)>>::empty());
        match find_def(self.file, name_s) {
            Some(k) => {
                match &self.file.defs[k] {
                    Def::FnDef(fd) => {
                        proof {
                            assert(crate::parser::ast::def_refs_ok(self.file.defs@[k as int], *self.file));
                        }
                        let sig = func_signature(self.file, fd);
                        let tp = sig.as_type();
                        proof {
                            assert(types_view(sig.args@) =~= Seq::new(fd.args@.len(), |k: int| type_of_expr(*self.file, fd.args@[k].1)));
                        }
                        let t = UType::from_type(&tp);
                        proof {
                            compat::lemma_lift_closed(tp@, below(self.nvars()));
                        }
                        Some((t, false))
                    },
                }
            },
            None => None,
        }
    }

    /// What `tp` is, looking through a variable to the type its class is
    /// bound to.
    pub fn view(&mut self, tp: &UType) -> (v: UTypeView)
        requires
            old(self).ok(),
            vars_below(tp@, old(self).nvars()),
        ensures
            final(self).ok(),
            final(self).same_state(old(self)),
            v@ == view_of(tp@, old(self).tbl()),
    {
        match &*tp.data {
            UTypeView::UnifVar(uvar) => {
                let root = uf_probe_value(&mut self.unif, *uvar);
                match root {
                    Some(t) => (*t.data).copy(),
                    None => UTypeView::UnifVar(*uvar),
                }
            },
            _ => (*tp.data).copy(),
        }
    }

    /// A new variable, in a class of its own; the error type once the table
    /// holds as many variables as it can.
    pub fn new_uvar(&mut self) -> (t: UType)
        requires
            old(self).ok(),
        ensures
            final(self).ok(),
            final(self).same_but_table(old(self)),
            refines(old(self).tbl(), old(self).sol@, final(self).tbl(), final(self).sol@),
            vars_below(t@, final(self).nvars()),
            old(self).nvars() < u32::MAX ==> t@ == UTypeV::Var(old(self).nvars()) && final(self).nvars() == old(self).nvars() + 1,
            old(self).nvars() >= u32::MAX ==> t@ == UTypeV::Error && final(self).same_state(old(self)),
    {
        if uf_len(&self.unif) >= u32::MAX as usize {
            return UType::error();
        }
        let ghost c = self.tbl();
        let ghost sol = self.sol@;
        let mut k = uf_new_key(&mut self.unif, None);
        k.lvl = self.lvl();
        proof {
            lemma_push_ok(c, sol);
            lemma_refines_push(c, sol);
            self.sol = Ghost(sol.push(UTypeV::Error));
            assert(self.tbl() == c.push((c.len(), None::<UTypeV>)));
            assert forall|i: int, j: int| 0 <= i < self.scopes@.len() && 0 <= j < self.scopes@[i]@.len() implies
                vars_below((#[trigger] self.scopes@[i]@[j]).1@, self.nvars()) by {
                lemma_all_vars_weaken(self.scopes@[i]@[j].1@, below(c.len()), below(self.nvars()));
            }
            assert forall|i: int| 0 <= i < self.inferred_types@.len() && (#[trigger] self.inferred_types@[i]) is Some implies
                vars_below(self.inferred_types@[i]->0@, self.nvars()) by {
                lemma_all_vars_weaken(self.inferred_types@[i]->0@, below(c.len()), below(self.nvars()));
            }
        }
        UTypeView::UnifVar(k).wrap()
    }

    /// Makes one class of the variables `u1` and `u2`, neither of whose
    /// classes has a type.
    pub(crate) fn union(&mut self, u1: UnifVar, u2: UnifVar)
        requires
            old(self).ok(),
            (u1.id as nat) < old(self).nvars(),
            (u2.id as nat) < old(self).nvars(),
            old(self).tbl()[u1.id as int].1 is None,
            old(self).tbl()[u2.id as int].1 is None,
        ensures
            final(self).ok(),
            final(self).same_but_table(old(self)),
            final(self).nvars() == old(self).nvars(),
            refines(old(self).tbl(), old(self).sol@, final(self).tbl(), final(self).sol@),
            (final(self).tbl() == old(self).tbl() && final(self).sol == old(self).sol)
                || free_count(final(self).tbl(), old(self).nvars()) < free_count(old(self).tbl(), old(self).nvars()),
            final(self).res(UTypeV::Var(u1.id as nat)) == final(self).res(UTypeV::Var(u2.id as nat)),
    {
        let ghost c = self.tbl();
        let ghost sol = self.sol@;
        let ghost ra = c[u1.id as int].0;
        let ghost rb = c[u2.id as int].0;
        uf_union(&mut self.unif, u1, u2);
        proof {
            let c2 = self.tbl();
            let r = c2[u1.id as int].0;
            assert(c[ra as int].0 == ra && c[u1.id as int].1 == c[ra as int].1);
            assert(c[rb as int].0 == rb && c[u2.id as int].1 == c[rb as int].1);
            assert(union_of(c, c2, ra, rb, r));
            lemma_union_ok(c, sol, c2, ra, rb, r);
            if ra == rb {
                lemma_refines_refl(c, sol);
            } else {
                lemma_refines_union(c, sol, c2, ra, rb, r);
                self.sol = Ghost(rename_sol(sol, ra, rb, r));
            }
            assert(c2[u2.id as int] == (r, None::<UTypeV>));
        }
    }

    /// Binds the class of `u`, which has no type yet, to `tp`, in which
    /// the class's root does not occur.
    pub(crate) fn resolve(&mut self, u: UnifVar, tp: UType)
        requires
            old(self).ok(),
            (u.id as nat) < old(self).nvars(),
            old(self).tbl()[u.id as int].1 is None,
            !(tp@ is Var),
            vars_below(tp@, old(self).nvars()),
            all_vars(old(self).res(tp@), other_than(old(self).tbl()[u.id as int].0)),
        ensures
            final(self).ok(),
            final(self).same_but_table(old(self)),
            final(self).nvars() == old(self).nvars(),
            refines(old(self).tbl(), old(self).sol@, final(self).tbl(), final(self).sol@),
            free_count(final(self).tbl(), old(self).nvars()) < free_count(old(self).tbl(), old(self).nvars()),
            final(self).res(UTypeV::Var(u.id as nat)) == final(self).res(tp@),
    {
        let ghost c = self.tbl();
        let ghost sol = self.sol@;
        let ghost ru = c[u.id as int].0;
        let ghost x = tp@;
        uf_union_value(&mut self.unif, u, Some(tp));
        proof {
            let c2 = self.tbl();
            assert(c[ru as int].0 == ru && c[u.id as int].1 == c[ru as int].1);
            assert(bind_of(c, c2, ru, x));
            lemma_bind_ok(c, sol, c2, ru, x);
            lemma_refines_bind(c, sol, c2, ru, x);
            let a = apply(x, c, sol);
            self.sol = Ghost(bind_sol(sol, ru, a));
            lemma_apply_bind(x, c, sol, c2, ru, x);
            lemma_subst_absent(a, ru, a);
            assert(c2[u.id as int] == (ru, Some(x)));
        }
    }
}

/// Binding `x` in the innermost scope (what `extend` does) shadows: the name
/// of `x` is then found with the new type and mutability, and every other
/// name is found as before.
pub proof fn lemma_lookup_after_extend(
    before: &InferenceCtx,
    after: &InferenceCtx,
    x: Ident,
    tp: UType,
    is_mut: bool,
    name: Seq<char>,
)
    requires
        before.scopes@.len() > 0,
        after.file == before.file,
        after.scopes@.len() == before.scopes@.len(),
        after.scopes@.drop_last() == before.scopes@.drop_last(),
        after.scopes@.last()@ == before.scopes@.last()@.push((x, tp, is_mut)),
    ensures
        name == ident_text(*before.file, x) ==> after.lookup_spec(name) == Some((tp@, is_mut)),
        name != ident_text(*before.file, x) ==> after.lookup_spec(name) == before.lookup_spec(name),
{
    assert(after.scopes@.last()@.drop_last() =~= before.scopes@.last()@);
}

/// A context continues itself.
pub proof fn lemma_continues_refl(a: &InferenceCtx)
    ensures
        a.continues(a),
{
    lemma_refines_refl(a.tbl(), a.sol@);
    assert(a.diagnostics@.subrange(0, a.diagnostics@.len() as int) =~= a.diagnostics@);
}

/// Continuing is transitive.
pub proof fn lemma_continues_trans(a: &InferenceCtx, b: &InferenceCtx, c: &InferenceCtx)
    requires
        b.continues(a),
        c.continues(b),
    ensures
        c.continues(a),
{
    compat::lemma_refines_trans(a.tbl(), a.sol@, b.tbl(), b.sol@, c.tbl(), c.sol@);
    assert(c.diagnostics@.subrange(0, a.diagnostics@.len() as int) =~= b.diagnostics@.subrange(0, a.diagnostics@.len() as int));
}

/// A context whose table refines that of `a`, with the same file, function
/// and diagnostics, continues `a`.
pub proof fn lemma_continues_same_diags(a: &InferenceCtx, b: &InferenceCtx)
    requires
        refines(a.tbl(), a.sol@, b.tbl(), b.sol@),
        b.file == a.file,
        b.f == a.f,
        b.diagnostics@ == a.diagnostics@,
    ensures
        b.continues(a),
{
    assert(b.diagnostics@.subrange(0, a.diagnostics@.len() as int) =~= a.diagnostics@);
}

/// Reporting one more diagnostic continues the context.
pub proof fn lemma_continues_report(a: &InferenceCtx, b: &InferenceCtx, d: Diagnostic)
    requires
        a.tbl() == b.tbl(),
        a.sol == b.sol,
        b.file == a.file,
        b.f == a.f,
        b.diagnostics@ == a.diagnostics@.push(d),
    ensures
        b.continues(a),
{
    lemma_refines_refl(a.tbl(), a.sol@);
    assert(b.diagnostics@.subrange(0, a.diagnostics@.len() as int) =~= a.diagnostics@);
}

/// A type below `n` variables is below any larger number of them.
pub proof fn lemma_vars_mono(t: UTypeV, n: nat, m: nat)
    requires
        vars_below(t, n),
        n <= m,
    ensures
        vars_below(t, m),
{
    lemma_all_vars_weaken(t, below(n), below(m));
}

/// The index of the first definition of `file` named `name`.
pub fn find_def(file: &File, name: &String) -> (r: Option<usize>)
    requires
        file.wf(),
    ensures
        match r {
            Some(i) => first_def(*file, name@) == Some(i as int) && i < file.defs@.len(),
            None => first_def(*file, name@) is None,
        },
{
    let mut i: usize = 0;
    while i < file.defs.len()
        invariant
            file.wf(),
            i <= file.defs@.len(),
            forall|j: int| 0 <= j < i ==> def_name(*file, j) != name@,
        decreases file.defs.len() - i,
    {
        match &file.defs[i] {
            Def::FnDef(fd) => {
                proof {
                    assert(crate::parser::ast::def_refs_ok(file.defs@[i as int], *file));
                }
                if file.idents[fd.name.0] == *name {
                    proof {
                        assert(def_name(*file, i as int) == name@);
                        let j = choose|j: int| 0 <= j < file.defs@.len() && def_name(*file, j) == name@
                            && forall|k: int| 0 <= k < j ==> def_name(*file, k) != name@;
                        assert(j == i as int);
                    }
                    return Some(i);
                }
            },
        }
        i += 1;
    }
    None
}

} // verus!
