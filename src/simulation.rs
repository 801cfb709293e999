//! The static circuit graph built from a parsed source text, and the
//! (still empty) dynamic state of a simulation.
use std::collections::HashMap;
use vstd::prelude::*;
use crate::ast::{modules_model, Ast, ModuleDef, ModuleModel};

verus! {

/// Inserts the modules in order, keyed by name: a later module replaces an
/// earlier one of the same name.
pub open spec fn graph_of(mods: Seq<ModuleModel>) -> Map<Seq<char>, ModuleModel>
    decreases mods.len(),
{
    if mods.len() == 0 {
        Map::empty()
    } else {
        graph_of(mods.drop_last()).insert(mods.last().name, mods.last())
    }
}

/// No two modules share a name.
pub open spec fn names_unique(mods: Seq<ModuleModel>) -> bool {
    forall|i: int, j: int|
        0 <= i < mods.len() && 0 <= j < mods.len() && i != j ==> mods[i].name != mods[j].name
}

/// The set of module names.
pub open spec fn names_of(mods: Seq<ModuleModel>) -> Set<Seq<char>> {
    Set::new(|n: Seq<char>| exists|i: int| 0 <= i < mods.len() && mods[i].name == n)
}

/// Module definitions indexed by name.
pub struct SimGraph {
    module_defs: Vec<ModuleDef>,
}

impl View for SimGraph {
    type V = Map<Seq<char>, ModuleModel>;

    closed spec fn view(&self) -> Map<Seq<char>, ModuleModel> {
        graph_of(modules_model(self.module_defs@))
    }
}

proof fn lemma_absent(v: Seq<ModuleModel>, n: Seq<char>)
    requires
        forall|i: int| 0 <= i < v.len() ==> v[i].name != n,
    ensures
        !graph_of(v).contains_key(n),
    decreases v.len(),
{
    if v.len() > 0 {
        lemma_absent(v.drop_last(), n);
    }
}

proof fn lemma_entry(v: Seq<ModuleModel>, i: int)
    requires
        names_unique(v),
        0 <= i < v.len(),
    ensures
        graph_of(v).contains_key(v[i].name),
        graph_of(v)[v[i].name] == v[i],
    decreases v.len(),
{
    if i < v.len() - 1 {
        lemma_entry(v.drop_last(), i);
    }
}

/// Replacing the module that holds a name is inserting under that name.
proof fn lemma_replace(v: Seq<ModuleModel>, i: int, m: ModuleModel)
    requires
        names_unique(v),
        0 <= i < v.len(),
        v[i].name == m.name,
    ensures
        graph_of(v.update(i, m)) == graph_of(v).insert(m.name, m),
    decreases v.len(),
{
    let w = v.update(i, m);
    assert(w.drop_last() =~= if i == v.len() - 1 {
        v.drop_last()
    } else {
        v.drop_last().update(i, m)
    });
    if i == v.len() - 1 {
        assert(graph_of(w) =~= graph_of(v).insert(m.name, m));
    } else {
        lemma_replace(v.drop_last(), i, m);
        assert(graph_of(w) =~= graph_of(v).insert(m.name, m));
    }
}

proof fn lemma_size(v: Seq<ModuleModel>)
    requires
        names_unique(v),
    ensures
        graph_of(v).dom().finite(),
        graph_of(v).dom().len() == v.len(),
    decreases v.len(),
{
    if v.len() > 0 {
        lemma_size(v.drop_last());
        lemma_absent(v.drop_last(), v.last().name);
    }
}

/// Every module's name is a key of the graph, and every key is the name of
/// some module.
pub proof fn lemma_graph_keys(mods: Seq<ModuleModel>)
    ensures
        graph_of(mods).dom() == names_of(mods),
    decreases mods.len(),
{
    if mods.len() > 0 {
        let p = mods.drop_last();
        lemma_graph_keys(p);
        assert forall|n: Seq<char>| #[trigger] names_of(mods).contains(n) implies graph_of(
            mods,
        ).contains_key(n) by {
            let i = choose|i: int| 0 <= i < mods.len() && mods[i].name == n;
            if i < mods.len() - 1 {
                assert(p[i].name == n);
                assert(names_of(p).contains(n));
            }
        }
        assert forall|n: Seq<char>| graph_of(mods).contains_key(n) implies #[trigger] names_of(
            mods,
        ).contains(n) by {
            if n != mods.last().name {
                assert(names_of(p).contains(n));
                let i = choose|i: int| 0 <= i < p.len() && p[i].name == n;
                assert(mods[i].name == n);
            } else {
                assert(mods[mods.len() - 1].name == n);
            }
        }
        assert(graph_of(mods).dom() =~= names_of(mods));
    } else {
        assert(graph_of(mods).dom() =~= names_of(mods));
    }
}

/// Of several modules with one name, the graph keeps the last.
pub proof fn lemma_last_wins(mods: Seq<ModuleModel>, i: int)
    requires
        0 <= i < mods.len(),
        forall|j: int| i < j < mods.len() ==> mods[j].name != mods[i].name,
    ensures
        graph_of(mods)[mods[i].name] == mods[i],
    decreases mods.len(),
{
    if i < mods.len() - 1 {
        lemma_last_wins(mods.drop_last(), i);
    }
}

impl SimGraph {
    /// The stored modules have distinct names.
    pub closed spec fn wf(&self) -> bool {
        names_unique(modules_model(self.module_defs@))
    }

    /// Indexes the modules of `ast` by name, in source order; a later module
    /// replaces an earlier one of the same name.
    pub fn from_ast(ast: Ast) -> (r: SimGraph)
        ensures
            r.wf(),
            r@ == graph_of(ast@),
    {
        let mut module_defs: Vec<ModuleDef> = Vec::new();
        let ghost all = ast@;
        let mut rest = ast.modules;
        proof {
            assert(modules_model(module_defs@) =~= seq![]);
            assert(all.subrange(0, 0) =~= seq![]);
            assert(all.subrange(0, all.len() as int) =~= all);
        }
        while rest.len() > 0
            invariant
                rest@.len() <= all.len(),
                modules_model(rest@) =~= all.subrange(all.len() - rest@.len(), all.len() as int),
                names_unique(modules_model(module_defs@)),
                graph_of(modules_model(module_defs@)) == graph_of(
                    all.subrange(0, all.len() - rest@.len()),
                ),
            decreases rest@.len(),
        {
            let ghost done = all.len() - rest@.len();
            let ghost tail = rest@;
            let module = rest.remove(0);
            proof {
                assert(modules_model(tail)[0] == module@);
                assert(all[done] == module@);
                assert(all.subrange(0, done + 1).drop_last() =~= all.subrange(0, done));
                assert(modules_model(rest@) =~= modules_model(tail).drop_first());
            }
            let ghost before = modules_model(module_defs@);
            let mut found: usize = 0;
            #[verifier::loop_isolation(false)]
            while found < module_defs.len() && module_defs[found].name != module.name
                invariant
                    found <= module_defs@.len(),
                    before == modules_model(module_defs@),
                    forall|t: int| 0 <= t < found ==> before[t].name != module@.name,
                decreases module_defs@.len() - found,
            {
                found = found + 1;
            }
            if found < module_defs.len() {
                proof {
                    lemma_replace(before, found as int, module@);
                    let after = before.update(found as int, module@);
                    assert forall|a: int, b: int|
                        0 <= a < after.len() && 0 <= b < after.len() && a != b implies #[trigger] after[a].name
                        != #[trigger] after[b].name by {
                        assert(after[a].name == before[a].name);
                        assert(after[b].name == before[b].name);
                    }
                }
                module_defs.set(found, module);
                assert(modules_model(module_defs@) =~= before.update(found as int, module@));
            } else {
                module_defs.push(module);
                assert(modules_model(module_defs@) =~= before.push(module@));
                assert(modules_model(module_defs@).drop_last() =~= before);
            }
        }
        assert(all.subrange(0, all.len() as int) =~= all);
        SimGraph { module_defs }
    }

    /// Number of distinct module names.
    pub fn len(&self) -> (r: usize)
        requires
            self.wf(),
        ensures
            r == self@.dom().len(),
    {
        proof {
            lemma_size(modules_model(self.module_defs@));
        }
        self.module_defs.len()
    }

    /// The module stored under `name`, if any.
    pub fn get(&self, name: &String) -> (r: Option<&ModuleDef>)
        requires
            self.wf(),
        ensures
            r is Some == self@.contains_key(name@),
            r is Some ==> self@[name@] == r->Some_0@,
    {
        let ghost v = modules_model(self.module_defs@);
        let mut i: usize = 0;
        while i < self.module_defs.len()
            invariant
                i <= self.module_defs@.len(),
                v == modules_model(self.module_defs@),
                names_unique(v),
                forall|t: int| 0 <= t < i ==> v[t].name != name@,
            decreases self.module_defs@.len() - i,
        {
            if self.module_defs[i].name == *name {
                proof {
                    lemma_entry(v, i as int);
                }
                return Some(&self.module_defs[i]);
            }
            i = i + 1;
        }
        proof {
            lemma_absent(v, name@);
        }
        None
    }
}

/// Current value of each wire, by wire handle.
pub struct SimState {
    pub wire_values: HashMap<usize, u64>,
}

impl SimState {
    /// A state with no wire values.
    pub fn new() -> (r: SimState)
        ensures
            r.wire_values@ == Map::<usize, u64>::empty(),
    {
        SimState { wire_values: HashMap::new() }
    }
}

} // verus!
