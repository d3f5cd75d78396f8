//! The tree of scopes, kept as an arena: a scope names its parent and its
//! children by id.

use crate::meta::{ScopeId, Variable};
use std::collections::BTreeMap;
use vstd::prelude::*;

verus! {

/// Why a scope or a variable could not be added.
#[derive(Debug, Clone, Copy, PartialEq, Eq, Structural)]
pub enum ScopesError {
    /// The parent is not below the scope's id, or was never added.
    InvalidParent,
}

struct InnerScope {
    id: ScopeId,
    parent: ScopeId,
    name: String,
    children: Vec<ScopeId>,
    variables: Vec<Variable>,
}

/// A scope, lent by the tree.
pub struct Scope<'a> {
    pub this: ScopeId,
    pub name: &'a str,
    pub children: &'a [ScopeId],
    pub variables: &'a [Variable],
}

/// The tree of scopes. The root scope, id 0, is always there.
pub struct Scopes {
    nodes: Vec<InnerScope>,
    index: BTreeMap<u32, usize>,
}

/// What a tree of scopes holds: of every scope that was added, its name,
/// its parent, its children and its variables.
pub struct ScopesView {
    pub names: Map<ScopeId, Seq<char>>,
    pub parents: Map<ScopeId, ScopeId>,
    pub children: Map<ScopeId, Seq<ScopeId>>,
    pub variables: Map<ScopeId, Seq<Variable>>,
}

impl ScopesView {
    /// The tree of the root scope alone, id 0, without a name.
    pub open spec fn root() -> ScopesView {
        ScopesView {
            names: Map::empty().insert(ScopeId(0), Seq::empty()),
            parents: Map::empty().insert(ScopeId(0), ScopeId(0)),
            children: Map::empty().insert(ScopeId(0), Seq::empty()),
            variables: Map::empty().insert(ScopeId(0), Seq::empty()),
        }
    }

    /// The tree with the scope `id` added below `parent`, as its last
    /// child, without children and variables of its own.
    pub open spec fn with_scope(self, parent: ScopeId, id: ScopeId, name: Seq<char>) -> ScopesView {
        ScopesView {
            names: self.names.insert(id, name),
            parents: self.parents.insert(id, parent),
            children: self.children.insert(id, Seq::empty()).insert(
                parent,
                self.children[parent].push(id),
            ),
            variables: self.variables.insert(id, Seq::empty()),
        }
    }

    /// The tree with `variable` added to `scope`, behind its other
    /// variables.
    pub open spec fn with_variable(self, scope: ScopeId, variable: Variable) -> ScopesView {
        ScopesView {
            variables: self.variables.insert(scope, self.variables[scope].push(variable)),
            ..self
        }
    }
}

impl View for Scopes {
    type V = ScopesView;

    open spec fn view(&self) -> ScopesView {
        ScopesView {
            names: Map::new(|id: ScopeId| self.contains(id), |id: ScopeId| self.name_of(id)),
            parents: Map::new(|id: ScopeId| self.contains(id), |id: ScopeId| self.parent_of(id)),
            children: Map::new(
                |id: ScopeId| self.contains(id),
                |id: ScopeId| self.children_of(id),
            ),
            variables: Map::new(
                |id: ScopeId| self.contains(id),
                |id: ScopeId| self.variables_of(id),
            ),
        }
    }
}

impl Scopes {
    /// Every id of the index leads to its own scope, and every scope but
    /// the root has a parent that is there and has a lesser id.
    pub closed spec fn wf(&self) -> bool {
        &&& self.index@.contains_key(0u32)
        &&& forall|id: u32| #[trigger]
            self.index@.contains_key(id) ==> {
                &&& self.index@[id] < self.nodes@.len()
                &&& self.nodes@[self.index@[id] as int].id == ScopeId(id)
                &&& (id != 0 ==> self.nodes@[self.index@[id] as int].parent.0 < id
                    && self.index@.contains_key(self.nodes@[self.index@[id] as int].parent.0))
            }
    }

    /// Whether the scope `id` was added.
    pub closed spec fn contains(&self, id: ScopeId) -> bool {
        self.index@.contains_key(id.0)
    }

    pub closed spec fn name_of(&self, id: ScopeId) -> Seq<char> {
        self.nodes@[self.index@[id.0] as int].name@
    }

    pub closed spec fn parent_of(&self, id: ScopeId) -> ScopeId {
        self.nodes@[self.index@[id.0] as int].parent
    }

    pub closed spec fn children_of(&self, id: ScopeId) -> Seq<ScopeId> {
        self.nodes@[self.index@[id.0] as int].children@
    }

    pub closed spec fn variables_of(&self, id: ScopeId) -> Seq<Variable> {
        self.nodes@[self.index@[id.0] as int].variables@
    }

    /// A tree with the root scope alone, without a name.
    pub fn new() -> (r: Self)
        ensures
            r.wf(),
            forall|id: ScopeId| r.contains(id) <==> id == ScopeId(0),
            r.name_of(ScopeId(0)) == Seq::<char>::empty(),
            r.children_of(ScopeId(0)) == Seq::<ScopeId>::empty(),
            r.variables_of(ScopeId(0)) == Seq::<Variable>::empty(),
            r@ == ScopesView::root(),
    {
        let mut nodes = Vec::new();
        nodes.push(
            InnerScope {
                id: ScopeId(0),
                parent: ScopeId(0),
                name: String::new(),
                children: Vec::new(),
                variables: Vec::new(),
            },
        );
        let mut index = BTreeMap::new();
        index.insert(0u32, 0usize);
        let r = Scopes { nodes, index };
        proof {
            assert forall|id: ScopeId| r.contains(id) <==> id == ScopeId(0) by {}
            let root = ScopesView::root();
            assert(r@.names =~= root.names);
            assert(r@.parents =~= root.parents);
            assert(r@.children =~= root.children);
            assert(r@.variables =~= root.variables);
        }
        r
    }

    /// Whether the scope `id` was added.
    pub fn has(&self, id: ScopeId) -> (r: bool)
        ensures
            r == self.contains(id),
    {
        self.index.contains_key(&id.0)
    }

    /// Adds the scope `id` below `parent`, as its last child, without
    /// children and variables of its own. An id that was added before is
    /// declared anew.
    ///
    /// Fails with `InvalidParent` where `parent` is not less than `id` or
    /// was never added; nothing changes then.
    pub fn add_scope(&mut self, parent: ScopeId, id: ScopeId, name: String) -> (r: Result<
        (),
        ScopesError,
    >)
        requires
            old(self).wf(),
        ensures
            final(self).wf(),
            r is Err <==> parent.0 >= id.0 || !old(self).contains(parent),
            final(self)@ == if r is Ok {
                old(self)@.with_scope(parent, id, name@)
            } else {
                old(self)@
            },
            r is Err ==> r->Err_0 == ScopesError::InvalidParent && forall|other: ScopeId|
                final(self).contains(other) == old(self).contains(other) && final(self).name_of(
                    other,
                ) == old(self).name_of(other) && final(self).children_of(other) == old(self).children_of(other) && final(self).variables_of(other) == old(self).variables_of(
                    other,
                ) && final(self).parent_of(other) == old(self).parent_of(other),
            r is Ok ==> {
                &&& final(self).contains(id)
                &&& final(self).name_of(id) == name@
                &&& final(self).parent_of(id) == parent
                &&& final(self).children_of(id) == Seq::<ScopeId>::empty()
                &&& final(self).variables_of(id) == Seq::<Variable>::empty()
                &&& final(self).children_of(parent) == old(self).children_of(parent).push(id)
                &&& final(self).name_of(parent) == old(self).name_of(parent)
                &&& final(self).variables_of(parent) == old(self).variables_of(parent)
                &&& forall|other: ScopeId|
                    other != id ==> final(self).contains(other) == old(self).contains(other)
                &&& forall|other: ScopeId|
                    other != id && other != parent && old(self).contains(other) ==> final(self).name_of(other) == old(self).name_of(other) && final(self).children_of(other)
                        == old(self).children_of(other) && final(self).variables_of(other) == old(self).variables_of(other) && final(self).parent_of(other) == old(self).parent_of(
                        other,
                    )
            },
    {
        if parent.0 >= id.0 {
            return Err(ScopesError::InvalidParent);
        }
        let at = match self.index.get(&parent.0) {
            Some(at) => *at,
            None => {
                return Err(ScopesError::InvalidParent);
            },
        };
        let ghost nodes0 = self.nodes@;
        self.nodes[at].children.push(id);
        let ghost nodes1 = self.nodes@;
        let fresh = InnerScope { id, parent, name, children: Vec::new(), variables: Vec::new() };
        match self.index.get(&id.0) {
            Some(place) => {
                let place = *place;
                proof {
                    // Two ids lead to two scopes.
                    assert(nodes0[place as int].id == id);
                    assert(nodes0[at as int].id == parent);
                }
                self.nodes[place] = fresh;
            },
            None => {
                let place = self.nodes.len();
                self.nodes.push(fresh);
                self.index.insert(id.0, place);
            },
        }
        proof {
            assert forall|other: u32| #[trigger] self.index@.contains_key(other) implies {
                &&& self.index@[other] < self.nodes@.len()
                &&& self.nodes@[self.index@[other] as int].id == ScopeId(other)
                &&& (other != 0 ==> self.nodes@[self.index@[other] as int].parent.0 < other
                    && self.index@.contains_key(self.nodes@[self.index@[other] as int].parent.0))
            } by {
                if other != id.0 {
                    assert(old(self).index@.contains_key(other));
                    assert(nodes0[old(self).index@[other] as int].id == ScopeId(other));
                }
            }
            assert forall|other: ScopeId|
                other != id && other != parent && old(self).contains(other) implies final(self).name_of(other) == old(self).name_of(other) && final(self).children_of(other) == old(self).children_of(other) && final(self).variables_of(other) == old(self).variables_of(other)
                && final(self).parent_of(other) == old(self).parent_of(other) by {
                assert(old(self).index@.contains_key(other.0));
                assert(nodes0[old(self).index@[other.0] as int].id == other);
                assert(nodes0[at as int].id == parent);
            }
            assert(final(self).parent_of(parent) == old(self).parent_of(parent));
            let before = old(self)@;
            let after = before.with_scope(parent, id, name@);
            assert(self@.names =~= after.names);
            assert(self@.parents =~= after.parents);
            assert(self@.children =~= after.children);
            assert(self@.variables =~= after.variables);
        }
        Ok(())
    }

    /// Adds `variable` to the scope `scope`, behind its other variables.
    ///
    /// Fails with `InvalidParent` where the scope was never added; nothing
    /// changes then.
    pub fn add_variable(&mut self, scope: ScopeId, variable: Variable) -> (r: Result<
        (),
        ScopesError,
    >)
        requires
            old(self).wf(),
        ensures
            final(self).wf(),
            r is Err <==> !old(self).contains(scope),
            r is Err ==> r->Err_0 == ScopesError::InvalidParent,
            final(self)@ == if r is Ok {
                old(self)@.with_variable(scope, variable)
            } else {
                old(self)@
            },
            forall|other: ScopeId| final(self).contains(other) == old(self).contains(other),
            forall|other: ScopeId|
                old(self).contains(other) ==> final(self).name_of(other) == old(self).name_of(other)
                    && final(self).children_of(other) == old(self).children_of(other) && final(self).parent_of(other) == old(self).parent_of(other) && final(self).variables_of(other)
                    == if r is Ok && other == scope {
                    old(self).variables_of(other).push(variable)
                } else {
                    old(self).variables_of(other)
                },
    {
        let at = match self.index.get(&scope.0) {
            Some(at) => *at,
            None => {
                return Err(ScopesError::InvalidParent);
            },
        };
        let ghost nodes0 = self.nodes@;
        self.nodes[at].variables.push(variable);
        proof {
            assert forall|other: ScopeId| old(self).contains(other) implies final(self).name_of(
                other,
            ) == old(self).name_of(other) && final(self).children_of(other) == old(self).children_of(other) && final(self).parent_of(other) == old(self).parent_of(other)
                && final(self).variables_of(other) == if other == scope {
                old(self).variables_of(other).push(variable)
            } else {
                old(self).variables_of(other)
            } by {
                assert(old(self).index@.contains_key(other.0));
                assert(nodes0[old(self).index@[other.0] as int].id == other);
                assert(nodes0[at as int].id == scope);
            }
            let before = old(self)@;
            let after = before.with_variable(scope, variable);
            assert(self@.names =~= after.names);
            assert(self@.parents =~= after.parents);
            assert(self@.children =~= after.children);
            assert(self@.variables =~= after.variables);
        }
        Ok(())
    }

    /// The scope `id`, which was added.
    pub fn get(&self, id: ScopeId) -> (r: Scope<'_>)
        requires
            self.wf(),
            self.contains(id),
        ensures
            r.this == id,
            r.name@ == self.name_of(id),
            r.children@ == self.children_of(id),
            r.variables@ == self.variables_of(id),
    {
        let at = match self.index.get(&id.0) {
            Some(at) => *at,
            None => 0,
        };
        let node = &self.nodes[at];
        Scope {
            this: id,
            name: node.name.as_str(),
            children: node.children.as_slice(),
            variables: node.variables.as_slice(),
        }
    }

    /// The scopes directly below the root, in the order in which they were
    /// added.
    pub fn top_level(&self) -> (r: Vec<ScopeId>)
        requires
            self.wf(),
        ensures
            r@ == self.children_of(ScopeId(0)),
    {
        let at = match self.index.get(&0u32) {
            Some(at) => *at,
            None => 0,
        };
        let children = &self.nodes[at].children;
        let mut tops: Vec<ScopeId> = Vec::new();
        let mut i: usize = 0;
        while i < children.len()
            invariant
                i <= children@.len(),
                tops@ == children@.subrange(0, i as int),
            decreases children@.len() - i,
        {
            tops.push(children[i]);
            i += 1;
            assert(tops@ =~= children@.subrange(0, i as int));
        }
        assert(tops@ =~= children@);
        tops
    }
}

} // verus!
