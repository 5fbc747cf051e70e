//! A scope of function definitions that refers to its enclosing scope.
//!
//! Functions defined in a scope are found from the scope itself and from the
//! scopes nested in it, but not from the scopes around it.

use vstd::prelude::*;

use crate::{
    functions::{find_name, names_distinct, Functions},
    node::{
        conflicts, defines_exactly, exact_match, find, keys_exact, lookup, lookup_after_define, no_any,
        opt_keys_exact, opt_lookup, opt_paths, opt_tidy, sound, tidy, agree_on_top, paths, signatures_view, stack_types, Node,
    },
    stack::Stack,
    types::Type,
};

verus! {

/// A scope: the functions defined in it, and the scope it is nested in.
pub struct Scope<'r, T> {
    parent: Option<&'r Scope<'r, T>>,
    functions: Vec<(String, Node<T>)>,
}

/// A definition conflicts with a function defined before.
#[derive(Debug, PartialEq, Eq)]
pub struct DefineError;

/// No function matched; the signatures defined under the name in the
/// outermost scope.
#[derive(Debug, PartialEq, Eq)]
pub struct GetError {
    pub candidates: Vec<Vec<Type>>,
}

impl<'r, T> Scope<'r, T> {
    /// The names of a scope are distinct, and its dispatch trees are sound.
    #[verifier::type_invariant]
    spec fn well_formed(self) -> bool {
        &&& names_distinct(self.functions@)
        &&& forall|j: int| 0 <= j < self.functions@.len() ==> sound(#[trigger] self.functions@[j].1)
    }

    /// Every dispatch tree of the scope is sound, as definitions build them.
    pub open spec fn trees_sound(&self) -> bool {
        forall|name: Seq<char>| #[trigger] self.node_of(name) is Some ==> sound(self.node_of(name)->0)
    }

    /// The trees of a well-formed scope are sound.
    proof fn lemma_trees_sound(&self)
        requires
            forall|j: int| 0 <= j < self.functions@.len() ==> sound(#[trigger] self.functions@[j].1),
        ensures
            self.trees_sound(),
    {
        assert forall|name: Seq<char>| #[trigger] self.node_of(name) is Some implies sound(self.node_of(name)->0) by {
            let i = find_name(self.functions@, name);
            assert(self.functions@[i] == self.functions@[i]);
        }
    }

    /// The dispatch tree of a name in this scope itself.
    pub closed spec fn node_of(&self, name: Seq<char>) -> Option<Node<T>> {
        let fs = self.functions@;
        let i = find_name(fs, name);
        if 0 <= i < fs.len() {
            Some(fs[i].1)
        } else {
            None
        }
    }

    /// The scope this one is nested in.
    pub closed spec fn parent(&self) -> Option<&'r Scope<'r, T>> {
        self.parent
    }

    /// The function this scope itself defines for a name and stack types.
    pub open spec fn lookup_here(&self, name: Seq<char>, tys: Seq<Type>) -> Option<T> {
        match self.node_of(name) {
            None => None,
            Some(n) => lookup(n, tys),
        }
    }

    /// The function found from this scope: here, or else in the enclosing scopes.
    pub closed spec fn resolve(&self, name: Seq<char>, tys: Seq<Type>) -> Option<T>
        decreases self,
    {
        match self.lookup_here(name, tys) {
            Some(f) => Some(f),
            None => match self.parent {
                Some(p) => p.resolve(name, tys),
                None => None,
            },
        }
    }

    /// The signatures under a name in the outermost scope.
    pub closed spec fn outer_candidates(&self, name: Seq<char>) -> Seq<Seq<Type>>
        decreases self,
    {
        match self.parent {
            Some(p) => p.outer_candidates(name),
            None => match self.node_of(name) {
                None => Seq::empty(),
                Some(n) => paths(n),
            },
        }
    }

    /// A scope without an enclosing scope and without functions.
    pub fn root() -> (r: Self)
        ensures
            r.parent() is None,
            forall|name: Seq<char>| #[trigger] r.node_of(name) is None,
            r.trees_sound(),
    {
        let r = Scope { parent: None, functions: Vec::new() };
        proof {
            r.lemma_trees_sound();
        }
        r
    }

    /// A scope nested in this one, without functions of its own.
    pub fn child(&'r self) -> (r: Self)
        ensures
            r.parent() == Some(self),
            forall|name: Seq<char>| #[trigger] r.node_of(name) is None,
            r.trees_sound(),
    {
        let r = Scope { parent: Some(self), functions: Vec::new() };
        proof {
            r.lemma_trees_sound();
        }
        r
    }

    /// The index of the entry for `name` among this scope's functions.
    fn find_name_index(&self, name: &String) -> (r: Option<usize>)
        ensures
            r matches Some(i) ==> i < self.functions@.len() && find_name(self.functions@, name@) == i,
            r is None ==> find_name(self.functions@, name@) == -1,
    {
        proof {
            use_type_invariant(self);
        }
        Functions::<T>::find_name_index(&self.functions, name)
    }

    /// Defines `f` under `name` for arguments of the types `args` (deepest on
    /// the stack first). Fails, changing nothing, where functions of that name
    /// in this scope stand in the way; otherwise every function found here
    /// before is still found, and `f` is found for every stack that matches
    /// `args`.
    pub fn define(&mut self, name: String, args: &[Type], f: T) -> (r: Result<(), DefineError>)
        ensures
            r is Err <==> crate::functions::define_conflicts(old(self).node_of(name@), args@) is Some,
            r is Err ==> *final(self) == *old(self),
            r is Ok ==> {
                &&& final(self).parent() == old(self).parent()
                &&& forall|tys: Seq<Type>| #[trigger] exact_match(args@, tys)
                    ==> final(self).lookup_here(name@, tys) == Some(f)
                &&& forall|nm: Seq<char>, tys: Seq<Type>| #[trigger] old(self).lookup_here(nm, tys) is Some
                    ==> final(self).lookup_here(nm, tys) == old(self).lookup_here(nm, tys)
                &&& forall|nm: Seq<char>| nm != name@ ==> #[trigger] final(self).node_of(nm)
                    == old(self).node_of(nm)
            },
            final(self).trees_sound(),
            r is Ok && opt_tidy(old(self).node_of(name@)) && no_any(args@) ==> opt_tidy(final(self).node_of(name@)),
            r is Ok && opt_keys_exact(old(self).node_of(name@)) && no_any(args@)
                ==> (final(self).node_of(name@) matches Some(nd) && defines_exactly(
                old(self).node_of(name@),
                nd,
                args@,
                f,
            )),
    {
        proof {
            use_type_invariant(&*self);
            self.lemma_trees_sound();
        }
        let found = self.find_name_index(&name);
        let n = args.len();
        proof {
            assert(args@.take(n as int) =~= args@);
        }
        match found {
            Some(i) => {
                let node = &self.functions[i].1;
                if n == 0 {
                    return Err(DefineError);
                }
                match node.find_conflicts(args, n) {
                    Some(_) => {
                        return Err(DefineError);
                    },
                    None => {},
                }
            },
            None => {},
        }
        let ghost old_self = *self;
        let parent = self.parent;
        let mut tmp: Scope<'r, T> = Scope { parent, functions: Vec::new() };
        std::mem::swap(self, &mut tmp);
        proof {
            use_type_invariant(&tmp);
        }
        let Scope { parent, mut functions } = tmp;
        let ghost old_fs = functions@;
        let ghost mut placed: Node<T>;
        match found {
            Some(i) => {
                let (k, mut node) = functions.remove(i);
                let ghost old_node = node;
                node.insert(args, n, f);
                let ghost new_node = node;
                functions.insert(i, (k, node));
                proof {
                    placed = new_node;
                    assert(old_fs[i as int].1 == old_node);
                    assert(sound(old_node));
                    assert(sound(new_node));
                    if tidy(old_node) && no_any(args@) {
                        assert(tidy(new_node));
                    }
                    if keys_exact(old_node) && no_any(args@) {
                        let kk = choose|kk: int| 0 <= kk <= paths(old_node).len() && paths(new_node)
                            == paths(old_node).insert(kk, args@.take(n as int));
                        assert(paths(new_node) == opt_paths(Some(old_node)).insert(kk, args@));
                        assert(defines_exactly(Some(old_node), new_node, args@, f));
                    }
                    assert(functions@ =~= old_fs.update(i as int, (k, new_node)));
                    assert(names_distinct(functions@)) by {
                        assert forall|a: int, b: int| 0 <= a < b < functions@.len() implies
                            (#[trigger] functions@[a]).0@ != (#[trigger] functions@[b]).0@ by {
                            assert(functions@[a].0 == old_fs[a].0);
                            assert(functions@[b].0 == old_fs[b].0);
                        }
                    }
                    crate::functions::lemma_find_name_same_names(old_fs, functions@, name@);
                }
            },
            None => {
                let node = if n == 0 {
                    Node::Function(f)
                } else {
                    let mut fresh = Node::new_type();
                    let ghost empty = fresh;
                    fresh.insert(args, n, f);
                    proof {
                        assert(keys_exact(empty));
                        assert(paths(empty) =~= Seq::<Seq<Type>>::empty());
                        assert forall|tys: Seq<Type>| #[trigger] lookup(empty, tys) is None by {
                            if tys.len() > 0 {
                                assert(find(empty->Type_0@, tys[0]) == -1);
                            }
                        }
                        if no_any(args@) {
                            crate::node::lemma_chain_tidy(fresh, args@.take(n as int), f);
                        }
                        if no_any(args@) {
                            let kk = choose|kk: int| 0 <= kk <= paths(empty).len() && paths(fresh)
                                == paths(empty).insert(kk, args@.take(n as int));
                            assert(paths(fresh) == opt_paths(None::<Node<T>>).insert(kk, args@));
                            assert forall|tys: Seq<Type>| no_any(tys) implies #[trigger] lookup(fresh, tys)
                                == lookup_after_define(opt_lookup(None::<Node<T>>, tys), args@, f, tys) by {
                                assert(lookup(empty, tys) is None);
                            }
                            assert(defines_exactly(None, fresh, args@, f));
                        }
                    }
                    fresh
                };
                let ghost new_node = node;
                functions.push((name, node));
                proof {
                    placed = new_node;
                    if n > 0 {
                        crate::node::lemma_chain_sound(new_node, args@.take(n as int), f);
                    }
                    assert(sound(new_node));
                    if n == 0 {
                        assert(args@ =~= Seq::<Type>::empty());
                        assert(paths(new_node) =~= Seq::<Seq<Type>>::empty().insert(0, args@));
                    }
                    if no_any(args@) && n == 0 {
                        assert(new_node == Node::<T>::Function(f));
                        assert forall|tys: Seq<Type>| no_any(tys) implies #[trigger] lookup(new_node, tys)
                            == lookup_after_define(opt_lookup(None::<Node<T>>, tys), args@, f, tys) by {
                            assert(exact_match(args@, tys));
                        }
                        assert(paths(new_node) == opt_paths(None::<Node<T>>).insert(0, args@));
                        assert(defines_exactly(None, new_node, args@, f));
                    }
                    assert(names_distinct(functions@)) by {
                        assert forall|a: int, b: int| 0 <= a < b < functions@.len() implies
                            (#[trigger] functions@[a]).0@ != (#[trigger] functions@[b]).0@ by {
                            assert(functions@[a] == old_fs[a]);
                            if b < old_fs.len() {
                                assert(functions@[b] == old_fs[b]);
                            }
                        }
                    }
                    crate::functions::lemma_find_name_push(old_fs, functions@, name@);
                }
            },
        }
        proof {
            assert forall|j: int| 0 <= j < functions@.len() implies sound(#[trigger] functions@[j].1) by {
                if found is Some && j == found->0 {
                } else if j < old_fs.len() {
                    assert(functions@[j] == old_fs[j]);
                }
            }
        }
        *self = Scope { parent, functions };
        proof {
            self.lemma_trees_sound();
            assert(self.node_of(name@) == Some(placed));
            assert(old_self.node_of(name@) == match found {
                Some(i) => Some(old_fs[i as int].1),
                None => None::<Node<T>>,
            });
            assert forall|nm: Seq<char>| nm != name@ implies #[trigger] self.node_of(nm)
                == old_self.node_of(nm) by {
                crate::functions::lemma_node_of_other_names(old_fs, self.functions@, name@, nm);
            }
            assert forall|nm: Seq<char>, tys: Seq<Type>| #[trigger] old_self.lookup_here(nm, tys) is Some
                implies self.lookup_here(nm, tys) == old_self.lookup_here(nm, tys) by {
                if nm != name@ {
                    crate::functions::lemma_node_of_other_names(old_fs, self.functions@, name@, nm);
                }
            }
        }
        Ok(())
    }

    /// The function for `name` that this scope, or else an enclosing scope,
    /// defines for the types on the stack.
    pub fn get(&self, name: &String, stack: &Stack) -> (r: Result<T, GetError>)
        where T: Clone
        ensures
            r matches Ok(v) ==> self.resolve(name@, stack_types(stack@)) matches Some(f) && cloned::<T>(f, v),
            r matches Err(e) ==> self.resolve(name@, stack_types(stack@)) is None
                && signatures_view(e.candidates@) == self.outer_candidates(name@),
            self.resolve(name@, stack_types(stack@)) is None ==> r is Err,
        decreases self,
    {
        proof {
            assert(stack_types(stack@).skip(0) =~= stack_types(stack@));
        }
        match self.find_name_index(name) {
            Some(i) => {
                match self.functions[i].1.get(stack, 0) {
                    Some(f) => {
                        return Ok(f.clone());
                    },
                    None => {},
                }
            },
            None => {},
        }
        match self.parent {
            Some(p) => p.get(name, stack),
            None => {
                let candidates = match self.find_name_index(name) {
                    Some(i) => self.functions[i].1.all_paths(),
                    None => Vec::new(),
                };
                proof {
                    if candidates@.len() == 0 {
                        assert(signatures_view(candidates@) =~= Seq::<Seq<Type>>::empty());
                    }
                }
                Err(GetError { candidates })
            },
        }
    }
}

/// A definition in a scope is refused where a lookup in that scope, for stack
/// types that its signature matches exactly, already finds a function.
pub proof fn law_scope_define_refused_where_found<T>(
    scope: &Scope<T>,
    name: Seq<char>,
    args: Seq<Type>,
    tys: Seq<Type>,
)
    requires
        scope.lookup_here(name, tys) is Some,
        exact_match(args, tys),
    ensures
        crate::functions::define_conflicts(scope.node_of(name), args) is Some,
{
    if args.len() > 0 {
        crate::node::lemma_conflicts_where_found(scope.node_of(name).unwrap(), args, tys);
    }
}

/// What a scope defines itself is found from it; what it does not define is
/// looked up in the scope around it.
pub proof fn law_scope_lookup_order<T>(scope: &Scope<T>, name: Seq<char>, tys: Seq<Type>)
    ensures
        scope.lookup_here(name, tys) is Some ==> scope.resolve(name, tys) == scope.lookup_here(name, tys),
        scope.lookup_here(name, tys) is None ==> scope.resolve(name, tys) == match scope.parent() {
            Some(p) => p.resolve(name, tys),
            None => None,
        },
{
}

/// A failed lookup reports the signatures of the outermost scope: a nested
/// scope reports those of the scope around it, the outermost scope its own.
pub proof fn law_scope_candidates<T>(scope: &Scope<T>, name: Seq<char>)
    ensures
        scope.outer_candidates(name) == match scope.parent() {
            Some(p) => p.outer_candidates(name),
            None => opt_paths(scope.node_of(name)),
        },
{
}

/// A nested scope that defines nothing under a name finds, for that name,
/// what the scope around it finds, and reports the same signatures.
pub proof fn law_fresh_child_defers<T>(scope: &Scope<T>, name: Seq<char>, tys: Seq<Type>)
    requires
        scope.parent() is Some,
        scope.node_of(name) is None,
    ensures
        scope.resolve(name, tys) == scope.parent().unwrap().resolve(name, tys),
        scope.outer_candidates(name) == scope.parent().unwrap().outer_candidates(name),
{
}

/// An outermost scope that defines nothing under a name finds nothing for it
/// and reports no signatures.
pub proof fn law_empty_root_finds_nothing<T>(scope: &Scope<T>, name: Seq<char>, tys: Seq<Type>)
    requires
        scope.parent() is None,
        scope.node_of(name) is None,
    ensures
        scope.resolve(name, tys) is None,
        scope.outer_candidates(name) == Seq::<Seq<Type>>::empty(),
{
}

/// A definition under a name none of whose signatures in the scope names
/// `any`, for a signature that names no `any` either, is refused exactly where
/// a signature already defined under the name in the scope itself (not the
/// scopes around it) agrees with it on their topmost types, as far as both
/// go.
pub proof fn law_scope_define_refused_on_agreement<T>(scope: &Scope<T>, name: Seq<char>, args: Seq<Type>)
    requires
        scope.trees_sound(),
        forall|p: Seq<Type>| #[trigger] opt_paths(scope.node_of(name)).contains(p) ==> no_any(p),
        no_any(args),
    ensures
        crate::functions::define_conflicts(scope.node_of(name), args) is Some <==> exists|p: Seq<Type>|
            #[trigger] opt_paths(scope.node_of(name)).contains(p) && agree_on_top(p, args),
{
    match scope.node_of(name) {
        None => {
            assert(opt_paths(scope.node_of(name)) == Seq::<Seq<Type>>::empty());
        },
        Some(n) => {
            assert(opt_paths(scope.node_of(name)) == paths(n));
            crate::node::law_sound_without_any_is_tidy(n);
            crate::node::law_conflicts_on_agreement(n, args);
            crate::node::lemma_tidy_has_paths(n);
            if args.len() == 0 {
                assert(paths(n).contains(paths(n)[0]));
                assert(agree_on_top(paths(n)[0], args));
            }
            if exists|p: Seq<Type>| #[trigger] paths(n).contains(p) && agree_on_top(p, args) {
                let p = choose|p: Seq<Type>| #[trigger] paths(n).contains(p) && agree_on_top(p, args);
                assert(opt_paths(scope.node_of(name)).contains(p));
            }
        },
    }
}

} // verus!
