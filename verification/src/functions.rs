//! Functions, defined per scope and chosen by the types on the stack.
//!
//! Scopes form a tree below the root scope. A function is looked up in the
//! scope where a word is evaluated, and then in each enclosing scope in turn.

use vstd::prelude::*;

use crate::{
    node::{
        conflicts, defines_exactly, exact_match, find, is_chain, keys_exact, lookup, lookup_after_define,
        no_any, opt_keys_exact, opt_lookup, opt_paths, sound, opt_tidy, tidy, agree_on_top, paths, signatures_view, stack_types, Node,
    },
    stack::Stack,
    text::str_to_string,
    types::Type,
};

verus! {

/// A scope in which functions are defined; scopes form a tree.
#[derive(Copy, Debug, PartialEq, Eq, Hash, Structural)]
pub struct Scope(pub u64);

impl Clone for Scope {
    fn clone(&self) -> (r: Self)
        ensures
            r == *self,
    {
        *self
    }
}

/// What a scope holds: its name, its parent, and the dispatch tree of each
/// function name defined in it.
#[derive(Debug)]
pub struct ScopeData<T> {
    pub name: String,
    pub parent: Option<Scope>,
    pub functions: Vec<(String, Node<T>)>,
}

/// All scopes and the functions defined in them.
#[derive(Debug)]
pub struct Functions<T> {
    scopes: Vec<ScopeData<T>>,
}

/// The index of the entry for `name` in a list of named dispatch trees, or -1.
pub open spec fn find_name<T>(fs: Seq<(String, Node<T>)>, name: Seq<char>) -> int {
    if exists|i: int| 0 <= i < fs.len() && (#[trigger] fs[i]).0@ == name {
        choose|i: int| 0 <= i < fs.len() && (#[trigger] fs[i]).0@ == name
    } else {
        -1
    }
}

/// Names in a scope are distinct.
pub open spec fn names_distinct<T>(fs: Seq<(String, Node<T>)>) -> bool {
    forall|i: int, j: int| 0 <= i < j < fs.len() ==> (#[trigger] fs[i]).0@ != (#[trigger] fs[j]).0@
}

/// The error of a definition that conflicts with functions already defined.
#[derive(Debug, PartialEq, Eq)]
pub struct DefineError {
    pub name: String,
    pub conflicting: Vec<Vec<Type>>,
}

/// The error of a lookup that found no function: the signatures defined under
/// that name in the root scope, and the name of the scope the lookup began in.
#[derive(Debug, PartialEq, Eq)]
pub struct GetError {
    pub candidates: Vec<Vec<Type>>,
    pub scope: String,
}

/// Every dispatch tree of the scopes is sound.
pub open spec fn all_sound<T>(scopes: Seq<ScopeData<T>>) -> bool {
    forall|i: int, j: int|
        #![trigger scopes[i].functions@[j]]
        0 <= i < scopes.len() && 0 <= j < scopes[i].functions@.len() ==> sound(scopes[i].functions@[j].1)
}

/// The signatures that stand in the way of a definition under a name whose
/// dispatch tree is `node`, if any. A function without arguments conflicts
/// with every function of its name.
pub open spec fn define_conflicts<T>(node: Option<Node<T>>, args: Seq<Type>) -> Option<
    Seq<Seq<Type>>,
> {
    match node {
        None => None,
        Some(n) => if args.len() == 0 {
            Some(paths(n))
        } else {
            conflicts(n, args)
        },
    }
}

impl<T> Functions<T> {
    /// Every scope but the root has a parent created before it; names within
    /// a scope are distinct; every dispatch tree is sound.
    #[verifier::type_invariant]
    spec fn well_formed(self) -> bool {
        &&& all_sound(self.scopes@)
        &&& self.scopes@.len() >= 1
        &&& self.scopes@[0].parent is None
        &&& forall|i: int|
            #![trigger self.scopes@[i]]
            0 < i < self.scopes@.len() ==> (self.scopes@[i].parent matches Some(p) && p.0 < i)
        &&& forall|i: int|
            0 <= i < self.scopes@.len() ==> names_distinct(#[trigger] self.scopes@[i].functions@)
    }

    /// Every dispatch tree of every scope is sound, as definitions build them.
    pub open spec fn trees_sound(&self) -> bool {
        forall|s: Scope, name: Seq<char>|
            self.valid(s) && #[trigger] self.node_of(s, name) is Some ==> sound(self.node_of(s, name)->0)
    }

    /// The trees of well-formed scopes are sound.
    proof fn lemma_trees_sound(&self)
        requires
            all_sound(self.scopes@),
        ensures
            self.trees_sound(),
    {
        assert forall|s: Scope, name: Seq<char>|
            self.valid(s) && #[trigger] self.node_of(s, name) is Some implies sound(self.node_of(s, name)->0) by {
            let fs = self.scopes@[s.0 as int].functions@;
            let i = find_name(fs, name);
            assert(fs[i] == self.scopes@[s.0 as int].functions@[i]);
        }
    }

    /// The number of scopes.
    pub closed spec fn scope_count(&self) -> nat {
        self.scopes@.len()
    }

    /// Whether a scope exists.
    pub open spec fn valid(&self, s: Scope) -> bool {
        s.0 < self.scope_count()
    }

    /// The parent of a scope.
    pub closed spec fn parent_of(&self, s: Scope) -> Option<Scope> {
        self.scopes@[s.0 as int].parent
    }

    /// The name of a scope.
    pub closed spec fn name_of(&self, s: Scope) -> Seq<char> {
        self.scopes@[s.0 as int].name@
    }

    /// The dispatch tree of a function name in a scope, if the name is defined there.
    pub closed spec fn node_of(&self, s: Scope, name: Seq<char>) -> Option<Node<T>> {
        let fs = self.scopes@[s.0 as int].functions@;
        let i = find_name(fs, name);
        if 0 <= i < fs.len() {
            Some(fs[i].1)
        } else {
            None
        }
    }

    /// The function that a scope itself defines for a name and a stack whose
    /// value types, from the top down, are `tys`.
    pub open spec fn lookup_in(&self, s: Scope, name: Seq<char>, tys: Seq<Type>) -> Option<T> {
        match self.node_of(s, name) {
            None => None,
            Some(n) => lookup(n, tys),
        }
    }

    /// The function found for a name from a scope: in the scope itself, or
    /// else in its parent, and so on up to the root.
    pub open spec fn resolve(&self, s: Scope, name: Seq<char>, tys: Seq<Type>) -> Option<T>
        decreases s.0,
    {
        match self.lookup_in(s, name, tys) {
            Some(f) => Some(f),
            None => match self.parent_of(s) {
                Some(p) => if p.0 < s.0 {
                    self.resolve(p, name, tys)
                } else {
                    None
                },
                None => None,
            },
        }
    }

    /// The signatures defined under a name in a scope.
    pub open spec fn candidates(&self, s: Scope, name: Seq<char>) -> Seq<Seq<Type>> {
        match self.node_of(s, name) {
            None => Seq::empty(),
            Some(n) => paths(n),
        }
    }

    /// The scope structure is the same in both.
    pub open spec fn same_scopes(&self, other: &Self) -> bool {
        &&& self.scope_count() == other.scope_count()
        &&& forall|s: Scope| #[trigger] self.valid(s) ==> self.parent_of(s) == other.parent_of(s)
            && self.name_of(s) == other.name_of(s)
    }

    /// No functions, and only the root scope.
    pub fn new() -> (r: Functions<T>)
        ensures
            r.scope_count() == 1,
            r.parent_of(Scope(0)) is None,
            r.name_of(Scope(0)) == "root"@,
            forall|name: Seq<char>| #[trigger] r.node_of(Scope(0), name) is None,
            r.trees_sound(),
    {
        proof {
            reveal_strlit("root");
        }
        let mut scopes = Vec::new();
        scopes.push(ScopeData { name: str_to_string("root"), parent: None, functions: Vec::new() });
        let r = Functions { scopes };
        proof {
            r.lemma_trees_sound();
        }
        r
    }

    /// The root scope.
    pub fn root_scope(&self) -> (r: Scope)
        ensures
            r == Scope(0),
            self.valid(r),
    {
        proof {
            use_type_invariant(self);
        }
        Scope(0)
    }

    /// Whether a scope exists.
    pub fn is_valid(&self, s: Scope) -> (r: bool)
        ensures
            r == self.valid(s),
    {
        (s.0 as usize) < self.scopes.len() && s.0 <= usize::MAX as u64
    }

    /// The parent of a scope: none for the root, else one created before it.
    pub fn parent(&self, s: Scope) -> (r: Option<Scope>)
        requires
            self.valid(s),
        ensures
            r == self.parent_of(s),
            s.0 == 0 ==> r is None,
            s.0 > 0 ==> (r matches Some(p) && p.0 < s.0),
    {
        proof {
            use_type_invariant(self);
        }
        self.scopes[self.index_of(s)].parent
    }

    /// Creates a scope below `parent`.
    pub fn new_scope(&mut self, parent: Scope, name: String) -> (r: Scope)
        requires
            old(self).valid(parent),
        ensures
            r.0 == old(self).scope_count(),
            final(self).scope_count() == old(self).scope_count() + 1,
            final(self).parent_of(r) == Some(parent),
            final(self).name_of(r) == name@,
            forall|name: Seq<char>| #[trigger] final(self).node_of(r, name) is None,
            forall|s: Scope| #[trigger] old(self).valid(s) ==> final(self).parent_of(s) == old(self).parent_of(s) && final(self).name_of(s) == old(self).name_of(s),
            forall|s: Scope, nm: Seq<char>| old(self).valid(s) ==> #[trigger] final(self).node_of(s, nm)
                == old(self).node_of(s, nm),
            final(self).extends(&*old(self)),
            final(self).adds_scopes_to(&*old(self)),
            final(self).trees_sound(),
    {
        proof {
            use_type_invariant(&*self);
        }
        let id = self.scopes.len() as u64;
        let mut scopes = self.take_scopes();
        let ghost before = scopes@;
        scopes.push(ScopeData { name, parent: Some(parent), functions: Vec::new() });
        proof {
            assert forall|i: int| 0 <= i < before.len() implies scopes@[i] == before[i] by {}
            assert(names_distinct(scopes@[before.len() as int].functions@));
        }
        *self = Functions { scopes };
        proof {
            use_type_invariant(&*self);
            self.lemma_trees_sound();
        }
        Scope(id)
    }

    /// Takes the scopes out, leaving only an empty root.
    fn take_scopes(&mut self) -> (r: Vec<ScopeData<T>>)
        ensures
            r@ == old(self).scopes@,
            r@.len() >= 1,
            r@[0].parent is None,
            forall|i: int|
                #![trigger r@[i]]
                0 < i < r@.len() ==> (r@[i].parent matches Some(p) && p.0 < i),
            forall|i: int| 0 <= i < r@.len() ==> names_distinct(#[trigger] r@[i].functions@),
            all_sound(r@),
    {
        let mut root = Vec::new();
        root.push(ScopeData { name: String::new(), parent: None, functions: Vec::new() });
        let mut tmp = Functions { scopes: root };
        std::mem::swap(self, &mut tmp);
        proof {
            use_type_invariant(&tmp);
        }
        let Functions { scopes } = tmp;
        scopes
    }

    /// The position of a scope among all scopes.
    fn index_of(&self, s: Scope) -> (r: usize)
        requires
            self.valid(s),
        ensures
            r == s.0,
            r < self.scopes@.len(),
    {
        let n = self.scopes.len();
        proof {
            assert(s.0 < n);
        }
        s.0 as usize
    }

    /// The index of the entry for `name` among a scope's functions.
    pub(crate) fn find_name_index(fs: &Vec<(String, Node<T>)>, name: &String) -> (r: Option<usize>)
        requires
            names_distinct(fs@),
        ensures
            r matches Some(i) ==> i < fs@.len() && find_name(fs@, name@) == i,
            r is None ==> find_name(fs@, name@) == -1,
    {
        let mut i: usize = 0;
        while i < fs.len()
            invariant
                i <= fs@.len(),
                names_distinct(fs@),
                forall|j: int| 0 <= j < i ==> (#[trigger] fs@[j]).0@ != name@,
            decreases fs@.len() - i,
        {
            if fs[i].0 == *name {
                proof {
                    let k = choose|k: int| 0 <= k < fs@.len() && (#[trigger] fs@[k]).0@ == name@;
                    if k != i {
                        if k < i {
                        } else {
                            assert(fs@[i as int].0@ != fs@[k].0@);
                        }
                    }
                }
                return Some(i);
            }
            i = i + 1;
        }
        None
    }

    /// Defines `f` under `name` in `scope`, for arguments of the types `args`
    /// (deepest on the stack first). Fails, changing nothing, where functions
    /// of that name stand in the way; otherwise every function found before is
    /// still found, and `f` is found for every stack that matches `args`.
    pub fn define(&mut self, scope: Scope, name: String, args: &[Type], f: T) -> (r: Result<
        (),
        DefineError,
    >)
        requires
            old(self).valid(scope),
        ensures
            r is Err <==> define_conflicts(old(self).node_of(scope, name@), args@) is Some,
            r matches Err(e) ==> e.name@ == name@ && define_conflicts(
                old(self).node_of(scope, name@),
                args@,
            ) == Some(signatures_view(e.conflicting@)) && *final(self) == *old(self),
            r is Ok ==> {
                &&& final(self).same_scopes(&*old(self))
                &&& forall|tys: Seq<Type>| #[trigger] exact_match(args@, tys) ==> final(self).lookup_in(
                    scope,
                    name@,
                    tys,
                ) == Some(f)
                &&& forall|s: Scope, nm: Seq<char>, tys: Seq<Type>| #[trigger]
                    old(self).lookup_in(s, nm, tys) is Some && old(self).valid(s) ==> final(self).lookup_in(s, nm, tys) == old(self).lookup_in(s, nm, tys)
                &&& forall|s: Scope, nm: Seq<char>| #[trigger]
                    final(self).node_of(s, nm) != old(self).node_of(s, nm) && old(self).valid(s)
                        ==> s == scope && nm == name@
                &&& final(self).extends(&*old(self))
            },
            old(self).node_of(scope, name@) is None ==> (final(self).node_of(scope, name@) matches Some(
                nd,
            ) && is_chain(nd, args@, f)),
            final(self).trees_sound(),
            r is Ok && opt_tidy(old(self).node_of(scope, name@)) && no_any(args@) ==> opt_tidy(final(self).node_of(scope, name@)),
            r is Ok && opt_keys_exact(old(self).node_of(scope, name@)) && no_any(args@) ==> {
                &&& opt_keys_exact(final(self).node_of(scope, name@))
                &&& forall|tys: Seq<Type>| no_any(tys) ==> #[trigger] final(self).lookup_in(
                    scope,
                    name@,
                    tys,
                ) == lookup_after_define(old(self).lookup_in(scope, name@, tys), args@, f, tys)
                &&& exists|k: int| 0 <= k <= old(self).candidates(scope, name@).len()
                    && final(self).candidates(scope, name@) == old(self).candidates(scope, name@).insert(
                    k,
                    args@,
                )
            },
    {
        proof {
            use_type_invariant(&*self);
            self.lemma_trees_sound();
        }
        let idx = self.index_of(scope);
        let found = Self::find_name_index(&self.scopes[idx].functions, &name);
        proof {
            assert(idx as int == scope.0);
            assert(self.scopes@[idx as int].functions@ == self.scopes[idx as int].functions@);
        }
        let n = args.len();
        proof {
            assert(args@.take(n as int) =~= args@);
        }
        // Check for conflicts before changing anything.
        match found {
            Some(i) => {
                let node = &self.scopes[idx].functions[i].1;
                if n == 0 {
                    let conflicting = node.all_paths();
                    return Err(DefineError { name, conflicting });
                }
                match node.find_conflicts(args, n) {
                    Some(conflicting) => {
                        return Err(DefineError { name, conflicting });
                    },
                    None => {},
                }
            },
            None => {},
        }
        let ghost old_self = *self;
        let ghost mut placed: Node<T>;
        let mut scopes = self.take_scopes();
        let ghost before = scopes@;
        let mut data = scopes.remove(idx);
        let ghost old_fs = data.functions@;
        match found {
            Some(i) => {
                let (k, mut node) = data.functions.remove(i);
                let ghost old_node = node;
                node.insert(args, n, f);
                let ghost new_node = node;
                data.functions.insert(i, (k, node));
                proof {
                    placed = new_node;
                    assert(old_fs[i as int].1 == old_node);
                    assert(before[idx as int].functions@[i as int] == old_fs[i as int]);
                    assert(sound(old_node));
                    assert(sound(new_node));
                    if tidy(old_node) && no_any(args@) {
                        assert(tidy(new_node));
                    }
                    if keys_exact(old_node) && no_any(args@) {
                        let kk = choose|kk: int| 0 <= kk <= paths(old_node).len() && paths(new_node)
                            == paths(old_node).insert(kk, args@.take(n as int));
                        assert(paths(new_node) == opt_paths(Some(old_node)).insert(kk, args@));
                        assert(defines_exactly(Some(old_node), new_node, args@, f));
                    }
                    assert(data.functions@ =~= old_fs.update(i as int, (k, new_node)));
                    assert(names_distinct(data.functions@)) by {
                        assert forall|a: int, b: int| 0 <= a < b < data.functions@.len() implies
                            (#[trigger] data.functions@[a]).0@ != (#[trigger] data.functions@[b]).0@ by {
                            assert(data.functions@[a].0 == old_fs[a].0);
                            assert(data.functions@[b].0 == old_fs[b].0);
                        }
                    }
                    lemma_find_name_same_names(old_fs, data.functions@, name@);
                }
            },
            None => {
                let node = if n == 0 {
                    Node::Function(f)
                } else {
                    let mut fresh = Node::new_type();
                    let ghost empty = fresh;
                    fresh.insert(args, n, f);
                    proof {
                        assert(keys_exact(empty));
                        assert(paths(empty) =~= Seq::<Seq<Type>>::empty());
                        assert forall|tys: Seq<Type>| #[trigger] lookup(empty, tys) is None by {
                            if tys.len() > 0 {
                                assert(find(empty->Type_0@, tys[0]) == -1);
                            }
                        }
                        if no_any(args@) {
                            crate::node::lemma_chain_tidy(fresh, args@.take(n as int), f);
                        }
                        if no_any(args@) {
                            let kk = choose|kk: int| 0 <= kk <= paths(empty).len() && paths(fresh)
                                == paths(empty).insert(kk, args@.take(n as int));
                            assert(paths(fresh) == opt_paths(None::<Node<T>>).insert(kk, args@));
                            assert forall|tys: Seq<Type>| no_any(tys) implies #[trigger] lookup(fresh, tys)
                                == lookup_after_define(opt_lookup(None::<Node<T>>, tys), args@, f, tys) by {
                                assert(lookup(empty, tys) is None);
                            }
                            assert(defines_exactly(None, fresh, args@, f));
                        }
                    }
                    fresh
                };
                let ghost new_node = node;
                data.functions.push((name, node));
                proof {
                    placed = new_node;
                    if n > 0 {
                        crate::node::lemma_chain_sound(new_node, args@.take(n as int), f);
                    }
                    assert(sound(new_node));
                    if n == 0 {
                        assert(args@ =~= Seq::<Type>::empty());
                        assert(paths(new_node) =~= Seq::<Seq<Type>>::empty().insert(0, args@));
                    }
                    if no_any(args@) && n == 0 {
                        assert(new_node == Node::<T>::Function(f));
                        assert forall|tys: Seq<Type>| no_any(tys) implies #[trigger] lookup(new_node, tys)
                            == lookup_after_define(opt_lookup(None::<Node<T>>, tys), args@, f, tys) by {
                            assert(exact_match(args@, tys));
                        }
                        assert(paths(new_node) == opt_paths(None::<Node<T>>).insert(0, args@));
                        assert(defines_exactly(None, new_node, args@, f));
                    }
                    assert(names_distinct(data.functions@)) by {
                        assert forall|a: int, b: int| 0 <= a < b < data.functions@.len() implies
                            (#[trigger] data.functions@[a]).0@ != (#[trigger] data.functions@[b]).0@ by {
                            if b == old_fs.len() {
                                assert(data.functions@[a] == old_fs[a]);
                            } else {
                                assert(data.functions@[a] == old_fs[a]);
                                assert(data.functions@[b] == old_fs[b]);
                            }
                        }
                    }
                    lemma_find_name_push(old_fs, data.functions@, name@);
                    assert(is_chain(new_node, args@, f));
                    if n == 0 {
                        assert forall|tys: Seq<Type>| #[trigger] exact_match(args@, tys) implies lookup(
                            new_node,
                            tys,
                        ) == Some(f) by {}
                    }
                }
            },
        }
        let ghost new_data = data;
        proof {
            assert forall|j: int| 0 <= j < new_data.functions@.len() implies sound(
                #[trigger] new_data.functions@[j].1,
            ) by {
                if found is Some && j == found->0 {
                } else if j < old_fs.len() {
                    assert(new_data.functions@[j] == old_fs[j]);
                    assert(before[idx as int].functions@[j] == old_fs[j]);
                }
            }
        }
        scopes.insert(idx, data);
        proof {
            assert(scopes@ =~= before.update(idx as int, new_data));
            assert(all_sound(scopes@)) by {
                assert forall|a: int, j: int|
                    0 <= a < scopes@.len() && 0 <= j < scopes@[a].functions@.len() implies sound(
                    #[trigger] scopes@[a].functions@[j].1,
                ) by {
                    if a != idx {
                        assert(scopes@[a] == before[a]);
                    }
                }
            }
        }
        *self = Functions { scopes };
        proof {
            self.lemma_trees_sound();
            assert(self.scopes@[idx as int].functions@ == new_data.functions@);
            assert(self.node_of(scope, name@) == Some(placed));
            if opt_keys_exact(old_self.node_of(scope, name@)) && no_any(args@) {
                assert(old_self.node_of(scope, name@) == match found {
                    Some(i) => Some(old_fs[i as int].1),
                    None => None::<Node<T>>,
                });
                assert(defines_exactly(old_self.node_of(scope, name@), placed, args@, f));
                assert forall|tys: Seq<Type>| no_any(tys) implies #[trigger] self.lookup_in(scope, name@, tys)
                    == lookup_after_define(old_self.lookup_in(scope, name@, tys), args@, f, tys) by {
                    assert(lookup(placed, tys) == lookup_after_define(
                        opt_lookup(old_self.node_of(scope, name@), tys), args@, f, tys));
                }
                assert(old_self.candidates(scope, name@) == opt_paths(old_self.node_of(scope, name@)));
            }
            if found is None {
                assert(self.scopes@[idx as int].functions@ == new_data.functions@);
            }
            assert forall|s: Scope| #[trigger] self.valid(s) implies self.parent_of(s)
                == old_self.parent_of(s) && self.name_of(s) == old_self.name_of(s) by {}
            assert forall|s: Scope, nm: Seq<char>| #[trigger]
                self.node_of(s, nm) != old_self.node_of(s, nm) && old_self.valid(s)
                    implies s == scope && nm == name@ by {
                if s != scope {
                    assert(self.scopes@[s.0 as int] == old_self.scopes@[s.0 as int]);
                } else if nm != name@ {
                    lemma_node_of_other_names(old_fs, self.scopes@[idx as int].functions@, name@, nm);
                }
            }
            assert forall|s: Scope, nm: Seq<char>, tys: Seq<Type>| #[trigger]
                old_self.lookup_in(s, nm, tys) is Some && old_self.valid(s) implies self.lookup_in(
                s,
                nm,
                tys,
            ) == old_self.lookup_in(s, nm, tys) by {
                if s != scope {
                    assert(self.scopes@[s.0 as int] == old_self.scopes@[s.0 as int]);
                } else if nm != name@ {
                    lemma_node_of_other_names(old_fs, self.scopes@[idx as int].functions@, name@, nm);
                }
            }
        }
        Ok(())
    }

    /// The function for `name` that the scope `scope`, or else an enclosing
    /// scope, defines for the types on the stack.
    pub fn get(&self, scope: Scope, name: &String, stack: &Stack) -> (r: Result<T, GetError>)
        where T: Clone
        requires
            self.valid(scope),
        ensures
            r matches Ok(v) ==> self.resolve(scope, name@, stack_types(stack@)) matches Some(f)
                && cloned::<T>(f, v),
            r matches Err(e) ==> self.resolve(scope, name@, stack_types(stack@)) is None
                && signatures_view(e.candidates@) == self.candidates(Scope(0), name@)
                && e.scope@ == self.name_of(scope),
            self.resolve(scope, name@, stack_types(stack@)) is None ==> r is Err,
    {
        proof {
            use_type_invariant(self);
            assert(stack_types(stack@).skip(0) =~= stack_types(stack@));
        }
        let mut s = scope;
        loop
            invariant
                self.valid(s),
                self.valid(scope),
                self.resolve(scope, name@, stack_types(stack@)) == self.resolve(
                    s,
                    name@,
                    stack_types(stack@),
                ),
            decreases s.0,
        {
            proof {
                use_type_invariant(self);
                assert(self.scopes@[s.0 as int] == self.scopes@[s.0 as int]);
                assert(stack_types(stack@).skip(0) =~= stack_types(stack@));
                assert(s.0 < self.scopes@.len());
            }
            let idx = self.index_of(s);
            let fs = &self.scopes[idx].functions;
            match Self::find_name_index(fs, name) {
                Some(i) => {
                    match fs[i].1.get(stack, 0) {
                        Some(f) => {
                            return Ok(f.clone());
                        },
                        None => {},
                    }
                },
                None => {},
            }
            match self.scopes[idx].parent {
                Some(p) => {
                    s = p;
                },
                None => {
                    let candidates = match Self::find_name_index(fs, name) {
                        Some(i) => fs[i].1.all_paths(),
                        None => Vec::new(),
                    };
                    proof {
                        assert(s.0 == 0);
                        if candidates@.len() == 0 {
                            assert(signatures_view(candidates@) =~= Seq::<Seq<Type>>::empty());
                        }
                    }
                    let scope_name = self.scopes[self.index_of(scope)].name.clone();
                    return Err(GetError { candidates, scope: scope_name });
                },
            }
        }
    }
}

/// Updating an entry's tree keeps where names are found.
pub(crate) proof fn lemma_find_name_same_names<T>(a: Seq<(String, Node<T>)>, b: Seq<(String, Node<T>)>, name: Seq<char>)
    requires
        a.len() == b.len(),
        forall|i: int| 0 <= i < a.len() ==> #[trigger] a[i].0 == b[i].0,
        names_distinct(a),
    ensures
        find_name(a, name) == find_name(b, name),
        forall|nm: Seq<char>| #[trigger] find_name(a, nm) == find_name(b, nm),
{
    assert forall|nm: Seq<char>| #[trigger] find_name(a, nm) == find_name(b, nm) by {
        if exists|i: int| 0 <= i < a.len() && (#[trigger] a[i]).0@ == nm {
            let i = choose|i: int| 0 <= i < a.len() && (#[trigger] a[i]).0@ == nm;
            assert(b[i].0@ == nm);
            let j = choose|j: int| 0 <= j < b.len() && (#[trigger] b[j]).0@ == nm;
            assert(a[j].0@ == nm);
            if i != j {
                if i < j {
                    assert(a[i].0@ != a[j].0@);
                } else {
                    assert(a[j].0@ != a[i].0@);
                }
            }
        } else {
            assert forall|j: int| 0 <= j < b.len() implies (#[trigger] b[j]).0@ != nm by {
                assert(a[j].0@ != nm);
            }
        }
    }
}

/// Appending a new name keeps where other names are found, and finds the new one last.
pub(crate) proof fn lemma_find_name_push<T>(a: Seq<(String, Node<T>)>, b: Seq<(String, Node<T>)>, name: Seq<char>)
    requires
        b.len() == a.len() + 1,
        forall|i: int| 0 <= i < a.len() ==> #[trigger] b[i] == a[i],
        b.last().0@ == name,
        find_name(a, name) == -1,
        names_distinct(b),
    ensures
        find_name(b, name) == a.len(),
        forall|nm: Seq<char>| nm != name ==> #[trigger] find_name(b, nm) == find_name(a, nm),
{
    assert(b[a.len() as int].0@ == name);
    let k = choose|k: int| 0 <= k < b.len() && (#[trigger] b[k]).0@ == name;
    if k != a.len() {
        assert(a[k].0@ == name);
    }
    assert forall|nm: Seq<char>| nm != name implies #[trigger] find_name(b, nm) == find_name(a, nm) by {
        if exists|i: int| 0 <= i < a.len() && (#[trigger] a[i]).0@ == nm {
            let i = choose|i: int| 0 <= i < a.len() && (#[trigger] a[i]).0@ == nm;
            assert(b[i].0@ == nm);
            let j = choose|j: int| 0 <= j < b.len() && (#[trigger] b[j]).0@ == nm;
            if j < a.len() {
                assert(a[j].0@ == nm);
                if i != j {
                    if i < j {
                        assert(b[i].0@ != b[j].0@);
                    } else {
                        assert(b[j].0@ != b[i].0@);
                    }
                }
            }
        } else {
            assert forall|j: int| 0 <= j < b.len() implies (#[trigger] b[j]).0@ != nm by {
                if j < a.len() {
                    assert(a[j].0@ != nm);
                }
            }
        }
    }
}

/// A definition under one name leaves the trees of other names alone.
pub(crate) proof fn lemma_node_of_other_names<T>(a: Seq<(String, Node<T>)>, b: Seq<(String, Node<T>)>, name: Seq<char>, nm: Seq<char>)
    requires
        nm != name,
        (b.len() == a.len() && forall|i: int| 0 <= i < a.len() ==> #[trigger] a[i].0 == b[i].0 && (
            a[i].0@ != name ==> a[i] == b[i]))
        || (b.len() == a.len() + 1 && forall|i: int| 0 <= i < a.len() ==> #[trigger] b[i] == a[i]),
        forall|m: Seq<char>| m != name ==> #[trigger] find_name(b, m) == find_name(a, m),
    ensures
        ({
            let i = find_name(a, nm);
            let j = find_name(b, nm);
            &&& i == j
            &&& (0 <= i < a.len() ==> 0 <= j < b.len() && a[i] == b[j])
            &&& (0 <= j < b.len() ==> 0 <= i < a.len())
        }),
{
    let i = find_name(a, nm);
    if 0 <= i < a.len() {
        assert(a[i].0@ == nm) by {
            let k = choose|k: int| 0 <= k < a.len() && (#[trigger] a[k]).0@ == nm;
        }
    }
    let j = find_name(b, nm);
    if 0 <= j < b.len() {
        assert(b[j].0@ == nm) by {
            let k = choose|k: int| 0 <= k < b.len() && (#[trigger] b[k]).0@ == nm;
        }
        if j >= a.len() {
            assert(j == i);
        }
    }
}

impl<T> Functions<T> {
    /// Everything `earlier` knew is still known: its scopes, with their
    /// parents and names, and every function it defined.
    pub open spec fn extends(&self, earlier: &Self) -> bool {
        &&& earlier.scope_count() <= self.scope_count()
        &&& forall|s: Scope| #[trigger] earlier.valid(s) ==> self.parent_of(s) == earlier.parent_of(s)
            && self.name_of(s) == earlier.name_of(s)
        &&& forall|s: Scope, nm: Seq<char>, tys: Seq<Type>| #[trigger]
            earlier.lookup_in(s, nm, tys) is Some && earlier.valid(s) ==> self.lookup_in(s, nm, tys)
                == earlier.lookup_in(s, nm, tys)
    }
}

impl<T> Functions<T> {
    /// `earlier` with scopes added below it and nothing else changed.
    pub open spec fn adds_scopes_to(&self, earlier: &Self) -> bool {
        &&& earlier.scope_count() <= self.scope_count()
        &&& forall|s: Scope| #[trigger] earlier.valid(s) ==> self.parent_of(s) == earlier.parent_of(s)
        &&& forall|s: Scope, nm: Seq<char>| earlier.valid(s) ==> #[trigger] self.node_of(s, nm)
            == earlier.node_of(s, nm)
    }
}

/// Adding scopes changes nothing that is found from a scope that was there
/// before; adding scopes twice adds scopes.
pub proof fn lemma_added_scopes_resolve<T>(a: &Functions<T>, b: &Functions<T>, s: Scope, name: Seq<char>, tys: Seq<Type>)
    requires
        b.adds_scopes_to(a),
        a.valid(s),
    ensures
        b.resolve(s, name, tys) == a.resolve(s, name, tys),
    decreases s.0,
{
    assert(b.node_of(s, name) == a.node_of(s, name));
    match a.parent_of(s) {
        Some(p) => if p.0 < s.0 {
            lemma_added_scopes_resolve(a, b, p, name, tys);
        },
        None => {},
    }
}

/// Adding scopes is reflexive and transitive.
pub proof fn lemma_adds_scopes_preorder<T>(a: &Functions<T>, b: &Functions<T>, c: &Functions<T>)
    ensures
        a.adds_scopes_to(a),
        b.adds_scopes_to(a) && c.adds_scopes_to(b) ==> c.adds_scopes_to(a),
{
    if b.adds_scopes_to(a) && c.adds_scopes_to(b) {
        assert forall|s: Scope| #[trigger] a.valid(s) implies c.parent_of(s) == a.parent_of(s) by {
            assert(b.valid(s));
        }
        assert forall|s: Scope, nm: Seq<char>| a.valid(s) implies #[trigger] c.node_of(s, nm)
            == a.node_of(s, nm) by {
            assert(b.valid(s));
            assert(b.node_of(s, nm) == a.node_of(s, nm));
        }
    }
}

/// Knowledge of scopes and functions only grows: extending is reflexive and
/// transitive.
pub proof fn law_extends_preorder<T>(a: &Functions<T>, b: &Functions<T>, c: &Functions<T>)
    ensures
        a.extends(a),
        b.extends(a) && c.extends(b) ==> c.extends(a),
{
    if b.extends(a) && c.extends(b) {
        assert forall|s: Scope| #[trigger] a.valid(s) implies c.parent_of(s) == a.parent_of(s)
            && c.name_of(s) == a.name_of(s) by {
            assert(b.valid(s));
        }
        assert forall|s: Scope, nm: Seq<char>, tys: Seq<Type>| #[trigger]
            a.lookup_in(s, nm, tys) is Some && a.valid(s) implies c.lookup_in(s, nm, tys)
                == a.lookup_in(s, nm, tys) by {
            assert(b.lookup_in(s, nm, tys) == a.lookup_in(s, nm, tys));
            assert(b.valid(s));
        }
    }
}

/// A function that a scope itself defines for the types on the stack is the
/// one found from that scope.
pub proof fn law_own_definition_found<T>(fs: &Functions<T>, s: Scope, name: Seq<char>, tys: Seq<Type>)
    requires
        fs.lookup_in(s, name, tys) is Some,
    ensures
        fs.resolve(s, name, tys) == fs.lookup_in(s, name, tys),
{
}

/// Where a scope defines nothing that matches, the function found from it is
/// the one found from its parent.
pub proof fn law_parent_definition_found<T>(fs: &Functions<T>, s: Scope, p: Scope, name: Seq<char>, tys: Seq<Type>)
    requires
        fs.lookup_in(s, name, tys) is None,
        fs.parent_of(s) == Some(p),
        p.0 < s.0,
    ensures
        fs.resolve(s, name, tys) == fs.resolve(p, name, tys),
{
}

/// A definition is refused where a lookup in its scope, for stack types that
/// its signature matches exactly, already finds a function: a function is
/// never defined twice, nor more or less specifically than one defined
/// before.
pub proof fn law_define_refused_where_found<T>(
    fs: &Functions<T>,
    s: Scope,
    name: Seq<char>,
    args: Seq<Type>,
    tys: Seq<Type>,
)
    requires
        fs.lookup_in(s, name, tys) is Some,
        exact_match(args, tys),
    ensures
        define_conflicts(fs.node_of(s, name), args) is Some,
{
    if args.len() > 0 {
        crate::node::lemma_conflicts_where_found(fs.node_of(s, name).unwrap(), args, tys);
    }
}

/// A definition in one scope changes nothing that is found from a scope
/// created before it: functions defined in a child scope are not found from
/// its parent.
pub proof fn law_definition_invisible_to_earlier_scopes<T>(
    before: &Functions<T>,
    after: &Functions<T>,
    scope: Scope,
    name: Seq<char>,
    p: Scope,
    nm: Seq<char>,
    tys: Seq<Type>,
)
    requires
        after.same_scopes(before),
        forall|s: Scope, n: Seq<char>| #[trigger] after.node_of(s, n) != before.node_of(s, n) && before.valid(s)
            ==> s == scope && n == name,
        before.valid(scope),
        p.0 < scope.0,
    ensures
        after.resolve(p, nm, tys) == before.resolve(p, nm, tys),
    decreases p.0,
{
    assert(before.valid(p));
    assert(after.node_of(p, nm) == before.node_of(p, nm));
    assert(after.valid(p));
    assert(after.parent_of(p) == before.parent_of(p));
    match before.parent_of(p) {
        Some(q) => if q.0 < p.0 {
            law_definition_invisible_to_earlier_scopes(before, after, scope, name, q, nm, tys);
        },
        None => {},
    }
}

/// A definition under a name none of whose signatures in the scope names
/// `any`, for a signature that names no `any` either, is refused exactly where
/// a signature already defined under the name in that scope itself agrees
/// with it on their topmost types, as far as both go; a refusal names at least
/// one conflicting signature.
pub proof fn law_define_refused_on_agreement<T>(fs: &Functions<T>, s: Scope, name: Seq<char>, args: Seq<Type>)
    requires
        fs.trees_sound(),
        fs.valid(s),
        forall|p: Seq<Type>| #[trigger] fs.candidates(s, name).contains(p) ==> no_any(p),
        no_any(args),
    ensures
        define_conflicts(fs.node_of(s, name), args) is Some <==> exists|p: Seq<Type>| #[trigger] fs.candidates(
            s,
            name,
        ).contains(p) && agree_on_top(p, args),
        define_conflicts(fs.node_of(s, name), args) matches Some(c) ==> c.len() > 0,
{
    match fs.node_of(s, name) {
        None => {
            assert(fs.candidates(s, name) == Seq::<Seq<Type>>::empty());
        },
        Some(n) => {
            assert(fs.candidates(s, name) == paths(n));
            crate::node::law_sound_without_any_is_tidy(n);
            crate::node::law_conflicts_on_agreement(n, args);
            crate::node::lemma_tidy_has_paths(n);
            if args.len() == 0 {
                assert(paths(n).contains(paths(n)[0]));
                assert(agree_on_top(paths(n)[0], args));
            }
            if exists|p: Seq<Type>| #[trigger] paths(n).contains(p) && agree_on_top(p, args) {
                let p = choose|p: Seq<Type>| #[trigger] paths(n).contains(p) && agree_on_top(p, args);
                assert(fs.candidates(s, name).contains(p));
            }
        },
    }
}

} // verus!
