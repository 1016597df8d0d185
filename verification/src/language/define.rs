//! Top-level definitions.

use std::collections::HashMap;
use std::rc::Rc;

use vstd::prelude::*;

use super::pexpr::{PExpr, Tree};
use super::types::Symbol;

verus! {

broadcast use vstd::std_specs::hash::group_hash_axioms;

/// A named definition in Pluck (function or value).
#[derive(Debug)]
pub struct Definition {
    pub name: Symbol,
    pub expr: Rc<PExpr>,
}

/// Registry of top-level definitions.
pub struct DefinitionRegistry {
    definitions: HashMap<Symbol, Definition>,
}

impl View for DefinitionRegistry {
    type V = Map<Symbol, Tree>;

    closed spec fn view(&self) -> Map<Symbol, Tree> {
        self.definitions@.map_values(|d: Definition| d.expr.tree())
    }
}

impl Default for DefinitionRegistry {
    fn default() -> (r: Self)
        ensures
            r.wf(),
            r@ == Map::<Symbol, Tree>::empty(),
    {
        Self::new()
    }
}

impl DefinitionRegistry {
    /// Each definition is kept under its own name.
    pub closed spec fn wf(self) -> bool {
        forall|n: Symbol| #[trigger]
            self.definitions@.dom().contains(n) ==> self.definitions@[n].name == n
    }

    pub fn new() -> (r: Self)
        ensures
            r.wf(),
            r@ == Map::<Symbol, Tree>::empty(),
    {
        let r = DefinitionRegistry { definitions: HashMap::new() };
        assert(r@ =~= Map::<Symbol, Tree>::empty());
        r
    }

    pub fn define(&mut self, name: Symbol, expr: Rc<PExpr>)
        requires
            old(self).wf(),
        ensures
            final(self).wf(),
            final(self)@ == old(self)@.insert(name, expr.tree()),
    {
        self.definitions.insert(name, Definition { name, expr });
        assert(self@ =~= old(self)@.insert(name, expr.tree()));
    }

    pub fn lookup(&self, name: Symbol) -> (r: Option<&Definition>)
        requires
            self.wf(),
        ensures
            match r {
                Some(d) => self@.dom().contains(name) && d.name == name && d.expr.tree()
                    == self@[name],
                None => !self@.dom().contains(name),
            },
    {
        self.definitions.get(&name)
    }

    pub fn is_defined(&self, name: Symbol) -> (r: bool)
        ensures
            r == self@.dom().contains(name),
    {
        self.definitions.contains_key(&name)
    }

    pub fn clear(&mut self)
        ensures
            final(self).wf(),
            final(self)@ == Map::<Symbol, Tree>::empty(),
    {
        self.definitions.clear();
        assert(self@ =~= Map::<Symbol, Tree>::empty());
    }
}

} // verus!
