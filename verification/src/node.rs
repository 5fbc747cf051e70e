//! The dispatch tree of one function name.
//!
//! A function's signature lists the types of its arguments, the deepest on the
//! stack first. The tree is keyed by argument type from the top of the stack
//! down: a node at depth `d` is chosen by the type of the value `d` places
//! below the top. Keys compare with type equality, where `any` equals every
//! type, and the first equal key of a node is the one taken.

use vstd::prelude::*;

use crate::{
    stack::Stack,
    types::{type_eq, Type},
    value::kind_type,
};

verus! {

/// A node of the dispatch tree: either a choice by the type of the next value
/// on the stack, or a function.
#[derive(Debug)]
pub enum Node<T> {
    Type(Vec<(Type, Node<T>)>),
    Function(T),
}

/// The index of the first entry from `i` on whose key equals `t`, or -1.
pub open spec fn find_from<T>(entries: Seq<(Type, Node<T>)>, t: Type, i: int) -> int
    decreases entries.len() - i,
{
    if i < 0 || i >= entries.len() {
        -1
    } else if type_eq(entries[i].0, t) {
        i
    } else {
        find_from(entries, t, i + 1)
    }
}

/// The index of the first entry whose key equals `t`, or -1.
pub open spec fn find<T>(entries: Seq<(Type, Node<T>)>, t: Type) -> int {
    find_from(entries, t, 0)
}

/// The function that a node chooses for a stack whose value types, from the
/// top down, are `tys`.
pub open spec fn lookup<T>(node: Node<T>, tys: Seq<Type>) -> Option<T>
    decreases node,
{
    match node {
        Node::Function(f) => Some(f),
        Node::Type(es) => {
            if tys.len() == 0 {
                None
            } else {
                let i = find(es@, tys[0]);
                if 0 <= i < es@.len() {
                    lookup(es@[i].1, tys.drop_first())
                } else {
                    None
                }
            }
        },
    }
}

/// The number of entries of a node.
pub open spec fn width<T>(node: Node<T>) -> int {
    match node {
        Node::Function(_) => 0,
        Node::Type(es) => es@.len() as int,
    }
}

/// The signatures of the functions below the entries from `i` on, each listed
/// deepest argument first.
pub open spec fn paths_from<T>(node: Node<T>, i: int) -> Seq<Seq<Type>>
    decreases node, width(node) - i,
{
    match node {
        Node::Function(_) => if i == 0 { seq![Seq::empty()] } else { Seq::empty() },
        Node::Type(es) => {
            if 0 <= i < es@.len() {
                paths_from(es@[i].1, 0).map_values(|p: Seq<Type>| p.push(es@[i].0)) + paths_from(
                    node,
                    i + 1,
                )
            } else {
                Seq::empty()
            }
        },
    }
}

/// The signatures of all functions below a node.
pub open spec fn paths<T>(node: Node<T>) -> Seq<Seq<Type>> {
    paths_from(node, 0)
}

/// The signatures that stand in the way of defining a function with the
/// signature `args` below a node, if any. A function already found on the
/// way conflicts; so do all functions below the node where `args` runs out.
/// Each conflicting signature is given from the point where `args` left off:
/// the types of `args` on the way, from the top of the stack down, and then
/// the signature below that point.
pub open spec fn conflicts<T>(node: Node<T>, args: Seq<Type>) -> Option<Seq<Seq<Type>>>
    decreases args.len(),
{
    match node {
        Node::Function(_) => Some(seq![Seq::empty()]),
        Node::Type(es) => {
            if args.len() == 0 {
                Some(paths(node))
            } else {
                let t = args.last();
                let i = find(es@, t);
                if 0 <= i < es@.len() {
                    match conflicts(es@[i].1, args.drop_last()) {
                        Some(c) => Some(c.map_values(|p: Seq<Type>| seq![t] + p)),
                        None => None,
                    }
                } else {
                    None
                }
            }
        },
    }
}

/// The types of a stack's values match a signature exactly: the topmost value
/// has the type of the last argument, and so on down.
pub open spec fn exact_match(args: Seq<Type>, tys: Seq<Type>) -> bool {
    &&& args.len() <= tys.len()
    &&& forall|i: int| 0 <= i < args.len() ==> #[trigger] tys[i] == args[args.len() - 1 - i]
}

/// The types of a stack's values from the top down.
pub open spec fn stack_types(values: Seq<crate::value::Any>) -> Seq<Type> {
    Seq::new(values.len(), |i: int| kind_type(values[values.len() - 1 - i].kind))
}

/// A node that holds nothing but a function below the path `args`.
pub open spec fn is_chain<T>(node: Node<T>, args: Seq<Type>, f: T) -> bool
    decreases args.len(),
{
    if args.len() == 0 {
        node == Node::<T>::Function(f)
    } else {
        match node {
            Node::Type(es) => es@.len() == 1 && es@[0].0 == args.last() && is_chain(
                es@[0].1,
                args.drop_last(),
                f,
            ),
            Node::Function(_) => false,
        }
    }
}

/// No type of the list is `any`.
pub open spec fn no_any(s: Seq<Type>) -> bool {
    forall|i: int| 0 <= i < s.len() ==> s[i] != Type::Any
}

/// No key anywhere in the tree is `any`, so that each key matches exactly
/// one type.
pub open spec fn keys_exact<T>(node: Node<T>) -> bool
    decreases node,
{
    match node {
        Node::Function(_) => true,
        Node::Type(es) => forall|i: int|
            0 <= i < es@.len() ==> (#[trigger] es@[i]).0 != Type::Any && keys_exact(es@[i].1),
    }
}

/// A tree as definitions build it: every choice has at least one entry, the
/// keys of a choice are distinct, and no key is `any`.
pub open spec fn tidy<T>(node: Node<T>) -> bool
    decreases node,
{
    match node {
        Node::Function(_) => true,
        Node::Type(es) => {
            &&& es@.len() > 0
            &&& forall|i: int, j: int|
                0 <= i < j < es@.len() ==> (#[trigger] es@[i]).0 != (#[trigger] es@[j]).0
            &&& forall|i: int|
                0 <= i < es@.len() ==> (#[trigger] es@[i]).0 != Type::Any && tidy(es@[i].1)
        },
    }
}

/// A tree as definitions build it, whatever its keys: every choice has at
/// least one entry, and the keys of a choice are distinct.
pub open spec fn sound<T>(node: Node<T>) -> bool
    decreases node,
{
    match node {
        Node::Function(_) => true,
        Node::Type(es) => {
            &&& es@.len() > 0
            &&& forall|i: int, j: int|
                0 <= i < j < es@.len() ==> (#[trigger] es@[i]).0 != (#[trigger] es@[j]).0
            &&& forall|i: int| 0 <= i < es@.len() ==> sound(#[trigger] es@[i].1)
        },
    }
}

/// Whether a tree, if there is one, is tidy.
pub open spec fn opt_tidy<T>(node: Option<Node<T>>) -> bool {
    match node {
        None => true,
        Some(n) => tidy(n),
    }
}

/// Two signatures agree on their topmost types, as far as both go.
pub open spec fn agree_on_top(p: Seq<Type>, a: Seq<Type>) -> bool {
    forall|i: int| 0 <= i < p.len() && 0 <= i < a.len() ==> #[trigger] p[p.len() - 1 - i] == a[a.len() - 1 - i]
}

/// Whether the keys of a tree, if there is one, are exact.
pub open spec fn opt_keys_exact<T>(node: Option<Node<T>>) -> bool {
    match node {
        None => true,
        Some(n) => keys_exact(n),
    }
}

/// What is chosen for stack types `tys` once `f` is defined with the
/// signature `args`, where `before` was chosen before: that, or else `f` where
/// `args` matches the types exactly.
pub open spec fn lookup_after_define<T>(before: Option<T>, args: Seq<Type>, f: T, tys: Seq<Type>) -> Option<T> {
    match before {
        Some(g) => Some(g),
        None => if exact_match(args, tys) {
            Some(f)
        } else {
            None
        },
    }
}

/// What a tree, if there is one, chooses for stack types `tys`.
pub open spec fn opt_lookup<T>(node: Option<Node<T>>, tys: Seq<Type>) -> Option<T> {
    match node {
        None => None,
        Some(n) => lookup(n, tys),
    }
}

/// The signatures of a tree, if there is one.
pub open spec fn opt_paths<T>(node: Option<Node<T>>) -> Seq<Seq<Type>> {
    match node {
        None => Seq::empty(),
        Some(n) => paths(n),
    }
}

/// `after` is the tree `before` (or no tree) with `f` defined for `args` and
/// nothing else: its keys stay exact, every stack finds what it found before
/// or else `f` where `args` matches exactly, and its signatures are the old
/// ones with `args` added.
pub open spec fn defines_exactly<T>(before: Option<Node<T>>, after: Node<T>, args: Seq<Type>, f: T) -> bool {
    &&& keys_exact(after)
    &&& forall|tys: Seq<Type>| no_any(tys) ==> #[trigger] lookup(after, tys) == lookup_after_define(
        opt_lookup(before, tys),
        args,
        f,
        tys,
    )
    &&& exists|k: int| 0 <= k <= opt_paths(before).len() && paths(after) == opt_paths(before).insert(
        k,
        args,
    )
}

/// The views of a list of signatures.
pub open spec fn signatures_view(v: Seq<Vec<Type>>) -> Seq<Seq<Type>> {
    v.map_values(|p: Vec<Type>| p@)
}

/// Finding a key only looks at the keys.
pub proof fn lemma_find_same_keys<T>(a: Seq<(Type, Node<T>)>, b: Seq<(Type, Node<T>)>, t: Type, i: int)
    requires
        a.len() == b.len(),
        forall|j: int| 0 <= j < a.len() ==> #[trigger] a[j].0 == b[j].0,
    ensures
        find_from(a, t, i) == find_from(b, t, i),
    decreases a.len() - i,
{
    if 0 <= i < a.len() {
        lemma_find_same_keys(a, b, t, i + 1);
    }
}

/// Appending an entry does not change an existing first match; where there
/// was none, a matching new entry is found.
pub proof fn lemma_find_push<T>(a: Seq<(Type, Node<T>)>, e: (Type, Node<T>), t: Type, i: int)
    requires
        0 <= i <= a.len(),
    ensures
        find_from(a, t, i) >= 0 ==> find_from(a.push(e), t, i) == find_from(a, t, i),
        find_from(a, t, i) < 0 && type_eq(e.0, t) ==> find_from(a.push(e), t, i) == a.len(),
        find_from(a, t, i) < 0 && !type_eq(e.0, t) ==> find_from(a.push(e), t, i) < 0,
    decreases a.len() - i,
{
    if i < a.len() {
        lemma_find_push(a, e, t, i + 1);
    } else {
        assert(find_from(a.push(e), t, i + 1) == -1);
    }
}

/// Where an entry from `i` on has a key equal to `x`, a key equal to `x` is
/// found, no later than that entry.
pub proof fn lemma_find_reaches<T>(es: Seq<(Type, Node<T>)>, x: Type, i: int, m: int)
    requires
        0 <= i <= m < es.len(),
        type_eq(es[m].0, x),
    ensures
        i <= find_from(es, x, i) <= m,
    decreases m - i,
{
    if !type_eq(es[i].0, x) {
        lemma_find_reaches(es, x, i + 1, m);
    }
}

/// An exact match splits into the top type and the rest.
pub proof fn lemma_exact_match_step(args: Seq<Type>, tys: Seq<Type>)
    requires
        args.len() > 0,
        tys.len() > 0,
    ensures
        exact_match(args, tys) == (tys[0] == args.last() && exact_match(
            args.drop_last(),
            tys.drop_first(),
        )),
{
    let rest = args.drop_last();
    let rtys = tys.drop_first();
    if exact_match(args, tys) {
        assert forall|i: int| 0 <= i < rest.len() implies #[trigger] rtys[i] == rest[rest.len() - 1 - i] by {
            assert(rtys[i] == tys[i + 1]);
        }
    }
    if tys[0] == args.last() && exact_match(rest, rtys) {
        assert forall|i: int| 0 <= i < args.len() implies #[trigger] tys[i] == args[args.len() - 1 - i] by {
            if i > 0 {
                assert(tys[i] == rtys[i - 1]);
            }
        }
    }
}

/// A chain's only signature is its path; its keys are exact where the path
/// names no `any`; it finds its function exactly for the stacks its path
/// matches exactly.
pub proof fn lemma_chain_facts<T>(node: Node<T>, args: Seq<Type>, f: T, tys: Seq<Type>)
    requires
        is_chain(node, args, f),
    ensures
        paths(node) == seq![args],
        no_any(args) ==> keys_exact(node),
        no_any(args) && no_any(tys) ==> lookup(node, tys) == (if exact_match(args, tys) {
            Some(f)
        } else {
            None
        }),
    decreases args.len(),
{
    if args.len() == 0 {
        assert(args =~= Seq::<Type>::empty());
        assert(paths(node) =~= seq![args]);
    } else {
        let es = node->Type_0;
        let child = es@[0].1;
        let rest = args.drop_last();
        let rtys = if tys.len() > 0 { tys.drop_first() } else { tys };
        lemma_chain_facts(child, rest, f, rtys);
        assert(paths_from(node, 1) == Seq::<Seq<Type>>::empty());
        assert(rest.push(args.last()) =~= args);
        assert(paths(node) =~= seq![args]);
        if no_any(args) {
            assert(no_any(rest));
            assert(es@[0].0 != Type::Any);
        }
        if no_any(args) && no_any(tys) {
            assert(no_any(rest));
            if tys.len() > 0 {
                assert(no_any(rtys));
                lemma_exact_match_step(args, tys);
                if type_eq(es@[0].0, tys[0]) {
                    assert(find(es@, tys[0]) == 0);
                } else {
                    assert(find_from(es@, tys[0], 1) == -1);
                }
            }
        }
    }
}

/// The seams of inserting into sequences.
proof fn lemma_insert_seams<A, B>(s: Seq<A>, t: Seq<A>, k: int, x: A, g: spec_fn(A) -> B)
    requires
        0 <= k <= s.len(),
    ensures
        s.insert(k, x).map_values(g) == s.map_values(g).insert(k, g(x)),
        s.insert(k, x) + t == (s + t).insert(k, x),
        t + s.insert(k, x) == (t + s).insert(t.len() + k, x),
{
    s.insert_ensures(k, x);
    s.map_values(g).insert_ensures(k, g(x));
    (s + t).insert_ensures(k, x);
    (t + s).insert_ensures(t.len() + k, x);
    assert(s.insert(k, x).map_values(g) =~= s.map_values(g).insert(k, g(x)));
    assert(s.insert(k, x) + t =~= (s + t).insert(k, x));
    assert(t + s.insert(k, x) =~= (t + s).insert(t.len() + k, x));
}

/// The signatures below entries from `j` on depend on those entries alone.
proof fn lemma_paths_same_tail<T>(n1: Node<T>, n2: Node<T>, j: int)
    requires
        n1 is Type,
        n2 is Type,
        n1->Type_0@.len() == n2->Type_0@.len(),
        0 <= j,
        forall|m: int| j <= m < n1->Type_0@.len() ==> n1->Type_0@[m] == n2->Type_0@[m],
    ensures
        paths_from(n1, j) == paths_from(n2, j),
    decreases n1->Type_0@.len() - j,
{
    if j < n1->Type_0@.len() {
        lemma_paths_same_tail(n1, n2, j + 1);
    }
}

/// Appending an entry appends its signatures.
proof fn lemma_paths_push<T>(n1: Node<T>, n2: Node<T>, e: (Type, Node<T>), j: int)
    requires
        n1 is Type,
        n2 is Type,
        n2->Type_0@ == n1->Type_0@.push(e),
        0 <= j <= n1->Type_0@.len(),
    ensures
        paths_from(n2, j) == paths_from(n1, j) + paths_from(e.1, 0).map_values(
            |p: Seq<Type>| p.push(e.0),
        ),
    decreases n1->Type_0@.len() - j,
{
    let len = n1->Type_0@.len();
    if j == len {
        assert(paths_from(n2, j + 1) == Seq::<Seq<Type>>::empty());
        assert(paths_from(n1, j) == Seq::<Seq<Type>>::empty());
        assert(n2->Type_0@[j] == e);
        assert(paths_from(n2, j) =~= paths_from(n1, j) + paths_from(e.1, 0).map_values(
            |p: Seq<Type>| p.push(e.0),
        ));
    } else {
        lemma_paths_push(n1, n2, e, j + 1);
        assert(n2->Type_0@[j] == n1->Type_0@[j]);
        assert(paths_from(n2, j) =~= paths_from(n1, j) + paths_from(e.1, 0).map_values(
            |p: Seq<Type>| p.push(e.0),
        ));
    }
}

/// Replacing the child of an entry by one with one signature more adds that
/// signature, behind the entry's key, to the node's signatures.
proof fn lemma_paths_update<T>(
    n1: Node<T>,
    n2: Node<T>,
    i: int,
    e: (Type, Node<T>),
    j: int,
    k: int,
    x: Seq<Type>,
) -> (q: int)
    requires
        n1 is Type,
        n2 is Type,
        0 <= j <= i < n1->Type_0@.len(),
        n2->Type_0@ == n1->Type_0@.update(i, e),
        e.0 == n1->Type_0@[i].0,
        0 <= k <= paths(n1->Type_0@[i].1).len(),
        paths(e.1) == paths(n1->Type_0@[i].1).insert(k, x),
    ensures
        0 <= q <= paths_from(n1, j).len(),
        paths_from(n2, j) == paths_from(n1, j).insert(q, x.push(e.0)),
    decreases i - j,
{
    let g = |p: Seq<Type>| p.push(e.0);
    let tail1 = paths_from(n1, j + 1);
    if j == i {
        lemma_paths_same_tail(n1, n2, j + 1);
        let c = n1->Type_0@[i].1;
        assert(paths_from(c, 0).map_values(|p: Seq<Type>| p.push(n1->Type_0@[j].0)) =~= paths(
            c,
        ).map_values(g));
        assert(n2->Type_0@[j] == e);
        assert(paths_from(e.1, 0).map_values(|p: Seq<Type>| p.push(n2->Type_0@[j].0)) =~= paths(
            e.1,
        ).map_values(g));
        lemma_insert_seams(paths(c), tail1, k, x, g);
        lemma_insert_seams(paths(c).map_values(g), tail1, k, g(x), g);
        k
    } else {
        let q1 = lemma_paths_update(n1, n2, i, e, j + 1, k, x);
        assert(n2->Type_0@[j] == n1->Type_0@[j]);
        let b = paths_from(n1->Type_0@[j].1, 0).map_values(|p: Seq<Type>| p.push(n1->Type_0@[j].0));
        assert(paths_from(n1, j) == b + tail1);
        assert(paths_from(n2, j) == b + paths_from(n2, j + 1));
        lemma_insert_seams(tail1, b, q1, x.push(e.0), g);
        b.len() + q1
    }
}

/// A tidy tree's keys are exact.
pub proof fn lemma_tidy_keys_exact<T>(node: Node<T>)
    requires
        tidy(node),
    ensures
        keys_exact(node),
    decreases node,
{
    match node {
        Node::Function(_) => {},
        Node::Type(es) => {
            assert forall|i: int| 0 <= i < es@.len() implies (#[trigger] es@[i]).0 != Type::Any && keys_exact(
                es@[i].1,
            ) by {
                lemma_tidy_keys_exact(es@[i].1);
            }
        },
    }
}

/// A tidy tree has at least one signature.
pub proof fn lemma_tidy_has_paths<T>(node: Node<T>)
    requires
        tidy(node),
    ensures
        paths(node).len() > 0,
    decreases node,
{
    match node {
        Node::Function(_) => {},
        Node::Type(es) => {
            lemma_tidy_has_paths(es@[0].1);
        },
    }
}

/// A chain whose path names no `any` is tidy.
pub proof fn lemma_chain_tidy<T>(node: Node<T>, args: Seq<Type>, f: T)
    requires
        is_chain(node, args, f),
        no_any(args),
    ensures
        tidy(node),
    decreases args.len(),
{
    if args.len() > 0 {
        let es = node->Type_0;
        assert(no_any(args.drop_last()));
        lemma_chain_tidy(es@[0].1, args.drop_last(), f);
    }
}

/// A signature is among those below the entries from `j` on exactly where it
/// is one below an entry's child, followed by the entry's key.
pub proof fn lemma_paths_contains<T>(node: Node<T>, j: int, p: Seq<Type>)
    requires
        node is Type,
        0 <= j,
    ensures
        paths_from(node, j).contains(p) <==> exists|m: int, q: Seq<Type>|
            j <= m < node->Type_0@.len() && #[trigger] paths(node->Type_0@[m].1).contains(q) && p
                == q.push(node->Type_0@[m].0),
    decreases node->Type_0@.len() - j,
{
    let es = node->Type_0@;
    if j < es.len() {
        lemma_paths_contains(node, j + 1, p);
        let key = es[j].0;
        let b = paths_from(es[j].1, 0).map_values(|q: Seq<Type>| q.push(es[j].0));
        let tail = paths_from(node, j + 1);
        assert(paths_from(node, j) == b + tail);
        if paths_from(node, j).contains(p) {
            let idx = choose|idx: int| 0 <= idx < paths_from(node, j).len() && paths_from(node, j)[idx] == p;
            if idx < b.len() {
                let q = paths(es[j].1)[idx];
                assert(paths(es[j].1).contains(q));
                assert(p == q.push(key));
            } else {
                assert(tail[idx - b.len()] == p);
                assert(tail.contains(p));
            }
        }
        if exists|m: int, q: Seq<Type>|
            j <= m < es.len() && #[trigger] paths(es[m].1).contains(q) && p == q.push(es[m].0) {
            let (m, q) = choose|m: int, q: Seq<Type>|
                j <= m < es.len() && #[trigger] paths(es[m].1).contains(q) && p == q.push(es[m].0);
            if m == j {
                let k = choose|k: int| 0 <= k < paths(es[j].1).len() && paths(es[j].1)[k] == q;
                assert(b[k] == p);
                assert(paths_from(node, j)[k] == p);
            } else {
                assert(tail.contains(p));
                let k = choose|k: int| 0 <= k < tail.len() && tail[k] == p;
                assert(paths_from(node, j)[b.len() + k] == p);
            }
        }
    }
}

/// Below a tidy tree, a definition for `args` (naming no `any`) conflicts
/// exactly where a signature defined before agrees with `args` on their
/// topmost types, as far as both go; the conflicts then name at least one
/// signature.
pub proof fn law_conflicts_on_agreement<T>(node: Node<T>, args: Seq<Type>)
    requires
        tidy(node),
        no_any(args),
    ensures
        conflicts(node, args) is Some <==> exists|p: Seq<Type>| #[trigger] paths(node).contains(p)
            && agree_on_top(p, args),
        conflicts(node, args) matches Some(c) ==> c.len() > 0,
    decreases args.len(),
{
    match node {
        Node::Function(_) => {
            assert(paths(node)[0] == Seq::<Type>::empty());
            assert(paths(node).contains(Seq::<Type>::empty()));
        },
        Node::Type(es) => {
            lemma_tidy_has_paths(node);
            if args.len() == 0 {
                assert(paths(node).contains(paths(node)[0]));
            } else {
                let t = args.last();
                let rest = args.drop_last();
                let i = find(es@, t);
                lemma_find_range(es@, t, 0);
                assert(no_any(rest));
                if 0 <= i < es@.len() {
                    assert(es@[i].0 == t);
                    let child = es@[i].1;
                    law_conflicts_on_agreement(child, rest);
                    if exists|q: Seq<Type>| #[trigger] paths(child).contains(q) && agree_on_top(q, rest) {
                        let q = choose|q: Seq<Type>| #[trigger] paths(child).contains(q) && agree_on_top(q, rest);
                        lemma_paths_contains(node, 0, q.push(t));
                        assert(paths(node).contains(q.push(t)));
                        let p = q.push(t);
                        assert forall|k: int| 0 <= k < p.len() && 0 <= k < args.len() implies #[trigger] p[p.len()
                            - 1 - k] == args[args.len() - 1 - k] by {
                            if k > 0 {
                                assert(p[p.len() - 1 - k] == q[q.len() - 1 - (k - 1)]);
                                assert(args[args.len() - 1 - k] == rest[rest.len() - 1 - (k - 1)]);
                            }
                        }
                    }
                    if exists|p: Seq<Type>| #[trigger] paths(node).contains(p) && agree_on_top(p, args) {
                        let p = choose|p: Seq<Type>| #[trigger] paths(node).contains(p) && agree_on_top(p, args);
                        lemma_paths_contains(node, 0, p);
                        let (m, q) = choose|m: int, q: Seq<Type>|
                            0 <= m < es@.len() && #[trigger] paths(es@[m].1).contains(q) && p == q.push(es@[m].0);
                        assert(p[p.len() - 1 - 0] == args[args.len() - 1 - 0]);
                        assert(es@[m].0 == t);
                        assert(m == i);
                        assert forall|k: int| 0 <= k < q.len() && 0 <= k < rest.len() implies #[trigger] q[q.len()
                            - 1 - k] == rest[rest.len() - 1 - k] by {
                            assert(p[p.len() - 1 - (k + 1)] == args[args.len() - 1 - (k + 1)]);
                        }
                        assert(paths(child).contains(q) && agree_on_top(q, rest));
                    }
                } else {
                    if exists|p: Seq<Type>| #[trigger] paths(node).contains(p) && agree_on_top(p, args) {
                        let p = choose|p: Seq<Type>| #[trigger] paths(node).contains(p) && agree_on_top(p, args);
                        lemma_paths_contains(node, 0, p);
                        let (m, q) = choose|m: int, q: Seq<Type>|
                            0 <= m < es@.len() && #[trigger] paths(es@[m].1).contains(q) && p == q.push(es@[m].0);
                        assert(p[p.len() - 1 - 0] == args[args.len() - 1 - 0]);
                        lemma_find_reaches(es@, t, 0, m);
                    }
                }
            }
        },
    }
}

/// A sound tree has at least one signature.
pub proof fn lemma_sound_has_paths<T>(node: Node<T>)
    requires
        sound(node),
    ensures
        paths(node).len() > 0,
    decreases node,
{
    match node {
        Node::Function(_) => {},
        Node::Type(es) => {
            lemma_sound_has_paths(es@[0].1);
        },
    }
}

/// A sound tree none of whose signatures names `any` is tidy, and so its keys
/// are exact.
pub proof fn law_sound_without_any_is_tidy<T>(node: Node<T>)
    requires
        sound(node),
        forall|p: Seq<Type>| #[trigger] paths(node).contains(p) ==> no_any(p),
    ensures
        tidy(node),
        keys_exact(node),
    decreases node,
{
    match node {
        Node::Function(_) => {},
        Node::Type(es) => {
            assert forall|i: int| 0 <= i < es@.len() implies (#[trigger] es@[i]).0 != Type::Any && tidy(es@[i].1) by {
                let child = es@[i].1;
                let key = es@[i].0;
                lemma_sound_has_paths(child);
                assert(paths(child).contains(paths(child)[0]));
                assert forall|q: Seq<Type>| #[trigger] paths(child).contains(q) implies no_any(q) by {
                    lemma_paths_contains(node, 0, q.push(key));
                    assert(paths(node).contains(q.push(key)));
                    assert forall|k: int| 0 <= k < q.len() implies q[k] != Type::Any by {
                        assert(q.push(key)[k] == q[k]);
                    }
                }
                let q0 = paths(child)[0];
                lemma_paths_contains(node, 0, q0.push(key));
                assert(paths(node).contains(q0.push(key)));
                assert(no_any(q0.push(key)));
                assert(q0.push(key)[q0.len() as int] == key);
                law_sound_without_any_is_tidy(child);
            }
        },
    }
    lemma_tidy_keys_exact(node);
}

/// A chain is sound.
pub proof fn lemma_chain_sound<T>(node: Node<T>, args: Seq<Type>, f: T)
    requires
        is_chain(node, args, f),
    ensures
        sound(node),
    decreases args.len(),
{
    if args.len() > 0 {
        lemma_chain_sound(node->Type_0@[0].1, args.drop_last(), f);
    }
}

/// A found index is in range.
pub proof fn lemma_find_range<T>(a: Seq<(Type, Node<T>)>, t: Type, i: int)
    ensures
        find_from(a, t, i) == -1 || (i <= find_from(a, t, i) < a.len() && type_eq(
            a[find_from(a, t, i)].0,
            t,
        )),
    decreases a.len() - i,
{
    if 0 <= i < a.len() && !type_eq(a[i].0, t) {
        lemma_find_range(a, t, i + 1);
    }
}

/// A chain leads to its function for every stack that matches its path.
pub proof fn lemma_chain_lookup<T>(node: Node<T>, args: Seq<Type>, f: T, tys: Seq<Type>)
    requires
        is_chain(node, args, f),
        exact_match(args, tys),
    ensures
        lookup(node, tys) == Some(f),
    decreases args.len(),
{
    if args.len() > 0 {
        let es = node->Type_0;
        assert(tys[0] == args[args.len() - 1]);
        assert(find(es@, tys[0]) == 0);
        let rest = args.drop_last();
        let rtys = tys.drop_first();
        assert forall|i: int| 0 <= i < rest.len() implies #[trigger] rtys[i] == rest[rest.len() - 1 - i] by {
            assert(rtys[i] == tys[i + 1]);
            assert(tys[i + 1] == args[args.len() - 1 - (i + 1)]);
        }
        lemma_chain_lookup(es@[0].1, rest, f, rtys);
    }
}

/// Copies a list of types.
pub fn copy_types(v: &Vec<Type>) -> (r: Vec<Type>)
    ensures
        r@ == v@,
{
    let mut out: Vec<Type> = Vec::new();
    let mut i: usize = 0;
    while i < v.len()
        invariant
            i <= v@.len(),
            out@ == v@.take(i as int),
        decreases v@.len() - i,
    {
        out.push(v[i]);
        i = i + 1;
        proof {
            assert(out@ =~= v@.take(i as int));
        }
    }
    proof {
        assert(out@ =~= v@);
    }
    out
}

impl<T> Node<T> {
    /// A node with nothing below it.
    pub fn new_type() -> (r: Node<T>)
        ensures
            r matches Node::Type(es) && es@.len() == 0,
    {
        Node::Type(Vec::new())
    }

    /// The signatures of all functions below the node, each listed deepest
    /// argument first.
    pub fn all_paths(&self) -> (r: Vec<Vec<Type>>)
        ensures
            signatures_view(r@) == paths(*self),
        decreases self,
    {
        let mut out: Vec<Vec<Type>> = Vec::new();
        match self {
            Node::Function(_) => {
                out.push(Vec::new());
                proof {
                    assert(signatures_view(out@) =~= paths(*self));
                }
            },
            Node::Type(es) => {
                let n = es.len();
                let mut i: usize = n;
                // Build the list from the back, so that the rest from `i` on is known.
                let mut acc: Vec<Vec<Type>> = Vec::new();
                while i > 0
                    invariant
                        *self == Node::Type(*es),
                        n == es@.len(),
                        i <= n,
                        signatures_view(acc@) == paths_from(*self, i as int),
                    decreases i,
                {
                    i = i - 1;
                    proof {
                        assert(decreases_to!(*self => es@[i as int].1));
                    }
                    let sub = es[i].1.all_paths();
                    let t = es[i].0;
                    let mut block: Vec<Vec<Type>> = Vec::new();
                    let mut k: usize = 0;
                    while k < sub.len()
                        invariant
                            k <= sub@.len(),
                            signatures_view(block@) == signatures_view(sub@).take(k as int).map_values(
                                |p: Seq<Type>| p.push(t),
                            ),
                        decreases sub@.len() - k,
                    {
                        let mut p = copy_types(&sub[k]);
                        p.push(t);
                        let ghost prev = block@;
                        let ghost pv = p@;
                        block.push(p);
                        k = k + 1;
                        proof {
                            assert(signatures_view(block@) =~= signatures_view(prev).push(pv));
                            assert(signatures_view(sub@).take(k as int).map_values(|p: Seq<Type>| p.push(t))
                                =~= signatures_view(sub@).take(k - 1).map_values(|p: Seq<Type>| p.push(t)).push(
                                sub@[k - 1]@.push(t)));
                            assert(signatures_view(block@) =~= signatures_view(sub@).take(
                                k as int,
                            ).map_values(|p: Seq<Type>| p.push(t)));
                        }
                    }
                    proof {
                        assert(signatures_view(sub@).take(k as int) =~= signatures_view(sub@));
                    }
                    let ghost old_acc = acc@;
                    block.append(&mut acc);
                    acc = block;
                    proof {
                        assert(signatures_view(acc@) =~= paths_from(*self, i as int));
                    }
                }
                out = acc;
            },
        }
        out
    }

    /// The index of the first entry whose key equals `t`.
    pub fn find_entry(entries: &Vec<(Type, Node<T>)>, t: Type) -> (r: Option<usize>)
        ensures
            r matches Some(i) ==> find(entries@, t) == i && i < entries@.len(),
            r is None ==> find(entries@, t) == -1,
    {
        let mut i: usize = 0;
        while i < entries.len()
            invariant
                i <= entries@.len(),
                find_from(entries@, t, 0) == find_from(entries@, t, i as int),
            decreases entries@.len() - i,
        {
            if entries[i].0.matches(&t) {
                return Some(i);
            }
            i = i + 1;
        }
        None
    }

    /// The function chosen for the stack, starting `depth` values below the top.
    pub fn get<'a>(&'a self, stack: &Stack, depth: usize) -> (r: Option<&'a T>)
        requires
            depth <= stack@.len(),
        ensures
            r matches Some(f) ==> lookup(*self, stack_types(stack@).skip(depth as int)) == Some(*f),
            r is None ==> lookup(*self, stack_types(stack@).skip(depth as int)) is None,
        decreases self,
    {
        let ghost tys = stack_types(stack@).skip(depth as int);
        match self {
            Node::Function(f) => Some(f),
            Node::Type(es) => {
                match stack.peek_at(depth) {
                    None => None,
                    Some(v) => {
                        proof {
                            stack.lemma_len_bound();
                        }
                        let t = v.get_type();
                        proof {
                            assert(tys[0] == t);
                        }
                        match Self::find_entry(es, t) {
                            None => None,
                            Some(i) => {
                                proof {
                                    assert(decreases_to!(*self => es@[i as int].1));
                                    assert(stack_types(stack@).skip(depth + 1) =~= tys.drop_first());
                                }
                                es[i].1.get(stack, depth + 1)
                            },
                        }
                    },
                }
            },
        }
    }

    /// The signatures that stand in the way of defining a function with the
    /// signature made of the first `n` types of `args`.
    pub fn find_conflicts(&self, args: &[Type], n: usize) -> (r: Option<Vec<Vec<Type>>>)
        requires
            n <= args@.len(),
        ensures
            r is None <==> conflicts(*self, args@.take(n as int)) is None,
            r matches Some(c) ==> conflicts(*self, args@.take(n as int)) == Some(
                signatures_view(c@),
            ),
        decreases n,
    {
        let ghost a = args@.take(n as int);
        match self {
            Node::Function(_) => {
                let mut c: Vec<Vec<Type>> = Vec::new();
                c.push(Vec::new());
                proof {
                    assert(signatures_view(c@) =~= seq![Seq::<Type>::empty()]);
                }
                Some(c)
            },
            Node::Type(es) => {
                if n == 0 {
                    return Some(self.all_paths());
                }
                let t = args[n - 1];
                proof {
                    assert(a.last() == t);
                    assert(a.drop_last() =~= args@.take(n - 1));
                }
                match Self::find_entry(es, t) {
                    None => None,
                    Some(i) => {
                        match es[i].1.find_conflicts(args, n - 1) {
                            None => None,
                            Some(c) => {
                                let mut out: Vec<Vec<Type>> = Vec::new();
                                let mut k: usize = 0;
                                while k < c.len()
                                    invariant
                                        k <= c@.len(),
                                        signatures_view(out@) == signatures_view(c@).take(
                                            k as int,
                                        ).map_values(|p: Seq<Type>| seq![t] + p),
                                    decreases c@.len() - k,
                                {
                                    let mut p = copy_types(&c[k]);
                                    p.insert(0, t);
                                    let ghost prev = out@;
                                    let ghost pv = p@;
                                    out.push(p);
                                    k = k + 1;
                                    proof {
                                        assert(pv =~= seq![t] + c@[k - 1]@);
                                        assert(signatures_view(out@) =~= signatures_view(prev).push(pv));
                                        assert(signatures_view(c@).take(k as int).map_values(|p: Seq<Type>| seq![t] + p)
                                            =~= signatures_view(c@).take(k - 1).map_values(|p: Seq<Type>| seq![t] + p).push(
                                            seq![t] + c@[k - 1]@));
                                        assert(signatures_view(out@) =~= signatures_view(c@).take(
                                            k as int,
                                        ).map_values(|p: Seq<Type>| seq![t] + p));
                                    }
                                }
                                proof {
                                    assert(signatures_view(c@).take(k as int) =~= signatures_view(
                                        c@,
                                    ));
                                }
                                Some(out)
                            },
                        }
                    },
                }
            },
        }
    }

    /// A node that holds `f` below the path of the first `n` types of `args`.
    pub fn chain(args: &[Type], n: usize, f: T) -> (r: Node<T>)
        requires
            n <= args@.len(),
        ensures
            is_chain(r, args@.take(n as int), f),
    {
        let mut node = Node::Function(f);
        let mut i: usize = 0;
        while i < n
            invariant
                i <= n,
                n <= args@.len(),
                is_chain(node, args@.take(i as int), f),
            decreases n - i,
        {
            let mut es: Vec<(Type, Node<T>)> = Vec::new();
            es.push((args[i], node));
            node = Node::Type(es);
            proof {
                assert(args@.take(i + 1).drop_last() =~= args@.take(i as int));
            }
            i = i + 1;
        }
        node
    }

    /// Defines `f` with the signature made of the first `n` types of `args`,
    /// where nothing stands in the way. Functions found before are still found.
    pub fn insert(&mut self, args: &[Type], n: usize, f: T)
        requires
            n <= args@.len(),
            conflicts(*old(self), args@.take(n as int)) is None,
        ensures
            forall|tys: Seq<Type>| #[trigger] exact_match(args@.take(n as int), tys) ==> lookup(
                *final(self),
                tys,
            ) == Some(f),
            forall|tys: Seq<Type>| #[trigger] lookup(*old(self), tys) is Some ==> lookup(
                *final(self),
                tys,
            ) == lookup(*old(self), tys),
            n > 0 && (*old(self)) is Type && width(*old(self)) == 0 ==> is_chain(
                *final(self),
                args@.take(n as int),
                f,
            ),
            sound(*old(self)) ==> sound(*final(self)),
            tidy(*old(self)) && no_any(args@.take(n as int)) ==> tidy(*final(self)),
            keys_exact(*old(self)) && no_any(args@.take(n as int)) ==> {
                &&& keys_exact(*final(self))
                &&& forall|tys: Seq<Type>| no_any(tys) ==> #[trigger] lookup(*final(self), tys)
                    == lookup_after_define(lookup(*old(self), tys), args@.take(n as int), f, tys)
                &&& exists|k: int| 0 <= k <= paths(*old(self)).len() && paths(*final(self)) == paths(
                    *old(self),
                ).insert(k, args@.take(n as int))
            },
        decreases n,
    {
        let ghost a = args@.take(n as int);
        let ghost old_node = *self;
        match self {
            Node::Function(_) => {},
            Node::Type(es) => {
                let t = args[n - 1];
                proof {
                    assert(a.last() == t);
                    assert(a.drop_last() =~= args@.take(n - 1));
                }
                let ghost old_es = es@;
                match Self::find_entry(es, t) {
                    Some(i) => {
                        let (k, mut child) = es.remove(i);
                        let ghost old_child = child;
                        child.insert(args, n - 1, f);
                        let ghost new_child = child;
                        es.insert(i, (k, child));
                        proof {
                            assert(es@ =~= old_es.update(i as int, (k, new_child)));
                            lemma_find_same_keys(old_es, es@, t, 0);
                            assert forall|tys: Seq<Type>| #[trigger] exact_match(a, tys) implies lookup(
                                Node::Type(*es),
                                tys,
                            ) == Some(f) by {
                                assert(tys[0] == t);
                                lemma_find_same_keys(old_es, es@, tys[0], 0);
                                let rest = args@.take(n - 1);
                                let rtys = tys.drop_first();
                                assert forall|j: int| 0 <= j < rest.len() implies #[trigger] rtys[j]
                                    == rest[rest.len() - 1 - j] by {
                                    assert(rtys[j] == tys[j + 1]);
                                }
                                assert(exact_match(rest, rtys));
                            }
                            assert forall|tys: Seq<Type>| #[trigger] lookup(old_node, tys) is Some implies lookup(
                                Node::Type(*es),
                                tys,
                            ) == lookup(old_node, tys) by {
                                lemma_find_same_keys(old_es, es@, tys[0], 0);
                                lemma_find_range(old_es, tys[0], 0);
                                assert(old_node->Type_0@ == old_es);
                                let j = find(old_es, tys[0]);
                                assert(0 <= j < old_es.len());
                                if j == i {
                                    assert(old_es[j].1 == old_child);
                                    assert(lookup(old_child, tys.drop_first()) is Some);
                                } else {
                                    assert(es@[j] == old_es[j]);
                                }
                            }
                            if sound(old_node) {
                                assert(sound(old_child));
                                assert(sound(Node::Type(*es))) by {
                                    assert forall|m: int| 0 <= m < es@.len() implies sound(#[trigger] es@[m].1) by {
                                        if m != i {
                                            assert(es@[m] == old_es[m]);
                                        }
                                    }
                                    assert forall|x: int, y: int| 0 <= x < y < es@.len() implies (#[trigger] es@[x]).0
                                        != (#[trigger] es@[y]).0 by {
                                        assert(es@[x].0 == old_es[x].0);
                                        assert(es@[y].0 == old_es[y].0);
                                    }
                                }
                            }
                            if tidy(old_node) && no_any(a) {
                                lemma_find_range(old_es, t, 0);
                                assert(no_any(args@.take(n - 1)));
                                assert(tidy(old_child));
                                assert(tidy(Node::Type(*es))) by {
                                    assert forall|m: int| 0 <= m < es@.len() implies (#[trigger] es@[m]).0
                                        != Type::Any && tidy(es@[m].1) by {
                                        if m != i {
                                            assert(es@[m] == old_es[m]);
                                        }
                                    }
                                    assert forall|x: int, y: int| 0 <= x < y < es@.len() implies (#[trigger] es@[x]).0
                                        != (#[trigger] es@[y]).0 by {
                                        assert(es@[x].0 == old_es[x].0);
                                        assert(es@[y].0 == old_es[y].0);
                                    }
                                }
                            }
                            if keys_exact(old_node) && no_any(a) {
                                let rest = args@.take(n - 1);
                                lemma_find_range(old_es, t, 0);
                                assert(old_es[i as int].0 != Type::Any);
                                assert(t != Type::Any);
                                assert(k == t);
                                assert(no_any(rest));
                                assert(keys_exact(old_child));
                                assert(keys_exact(Node::Type(*es))) by {
                                    assert forall|m: int| 0 <= m < es@.len() implies (#[trigger] es@[m]).0
                                        != Type::Any && keys_exact(es@[m].1) by {
                                        if m != i {
                                            assert(es@[m] == old_es[m]);
                                        }
                                    }
                                }
                                assert forall|tys: Seq<Type>| no_any(tys) implies #[trigger] lookup(
                                    Node::Type(*es),
                                    tys,
                                ) == lookup_after_define(lookup(old_node, tys), a, f, tys) by {
                                    if tys.len() > 0 {
                                        lemma_exact_match_step(a, tys);
                                        lemma_find_same_keys(old_es, es@, tys[0], 0);
                                        lemma_find_range(old_es, tys[0], 0);
                                        let rtys = tys.drop_first();
                                        assert(no_any(rtys));
                                        let j = find(old_es, tys[0]);
                                        if tys[0] == t {
                                            assert(j == i);
                                            assert(lookup(new_child, rtys) == lookup_after_define(
                                                lookup(old_child, rtys), rest, f, rtys));
                                        } else if 0 <= j < old_es.len() {
                                            assert(old_es[j].0 == tys[0]);
                                            assert(j != i);
                                            assert(es@[j] == old_es[j]);
                                        }
                                    }
                                }
                                let kc = choose|kc: int| 0 <= kc <= paths(old_child).len() && paths(new_child)
                                    == paths(old_child).insert(kc, rest);
                                let q = lemma_paths_update(old_node, Node::Type(*es), i as int, (k, new_child), 0, kc, rest);
                                assert(rest.push(k) =~= a);
                            }
                        }
                    },
                    None => {
                        let c = Self::chain(args, n - 1, f);
                        let ghost entry = (t, c);
                        es.push((t, c));
                        let ghost new_es = *es;
                        proof {
                            assert(es@ =~= old_es.push(entry));
                            if old_es.len() == 0 {
                                assert(es@.len() == 1 && es@[0] == entry);
                                assert(is_chain(Node::Type(new_es), a, f));
                            }
                            assert forall|tys: Seq<Type>| #[trigger] exact_match(a, tys) implies lookup(
                                Node::Type(new_es),
                                tys,
                            ) == Some(f) by {
                                assert(tys[0] == t);
                                lemma_find_push(old_es, entry, tys[0], 0);
                                let rest = args@.take(n - 1);
                                let rtys = tys.drop_first();
                                assert forall|j: int| 0 <= j < rest.len() implies #[trigger] rtys[j]
                                    == rest[rest.len() - 1 - j] by {
                                    assert(rtys[j] == tys[j + 1]);
                                }
                                lemma_chain_lookup(c, rest, f, rtys);
                            }
                            assert forall|tys: Seq<Type>| #[trigger] lookup(old_node, tys) is Some implies lookup(
                                Node::Type(new_es),
                                tys,
                            ) == lookup(old_node, tys) by {
                                lemma_find_push(old_es, entry, tys[0], 0);
                                lemma_find_range(old_es, tys[0], 0);
                                assert(old_node->Type_0@ == old_es);
                                assert(tys.len() > 0);
                                let j = find(old_es, tys[0]);
                                assert(0 <= j < old_es.len());
                                assert(find(es@, tys[0]) == j);
                                assert(es@[j] == old_es[j]);
                                assert(lookup(old_node, tys) == lookup(old_es[j].1, tys.drop_first()));
                                assert(lookup(Node::Type(new_es), tys) == lookup(es@[j].1, tys.drop_first()));
                                assert(lookup(Node::Type(new_es), tys) == lookup(old_node, tys));
                            }
                            let rest = args@.take(n - 1);
                            lemma_chain_facts(c, rest, f, rest);
                            lemma_paths_push(old_node, Node::Type(new_es), entry, 0);
                            assert(rest.push(t) =~= a);
                            assert(paths(c).map_values(|p: Seq<Type>| p.push(entry.0)) =~= seq![a]);
                            assert(paths(Node::Type(new_es)) =~= paths(old_node).insert(
                                paths(old_node).len() as int,
                                a,
                            ));
                            if sound(old_node) {
                                lemma_chain_sound(c, args@.take(n - 1), f);
                                assert(sound(Node::Type(new_es))) by {
                                    assert forall|m: int| 0 <= m < new_es@.len() implies sound(#[trigger] new_es@[m].1) by {
                                        if m < old_es.len() {
                                            assert(new_es@[m] == old_es[m]);
                                        }
                                    }
                                    assert forall|x: int, y: int| 0 <= x < y < new_es@.len() implies (#[trigger] new_es@[x]).0
                                        != (#[trigger] new_es@[y]).0 by {
                                        assert(new_es@[x] == old_es[x]);
                                        if y < old_es.len() {
                                            assert(new_es@[y] == old_es[y]);
                                        } else if old_es[x].0 == t {
                                            lemma_find_reaches(old_es, t, 0, x);
                                        }
                                    }
                                }
                            }
                            if tidy(old_node) && no_any(a) {
                                assert(no_any(rest));
                                lemma_chain_tidy(c, rest, f);
                                assert(tidy(Node::Type(new_es))) by {
                                    assert forall|m: int| 0 <= m < new_es@.len() implies (#[trigger] new_es@[m]).0
                                        != Type::Any && tidy(new_es@[m].1) by {
                                        if m < old_es.len() {
                                            assert(new_es@[m] == old_es[m]);
                                        }
                                    }
                                    assert forall|x: int, y: int| 0 <= x < y < new_es@.len() implies (#[trigger] new_es@[x]).0
                                        != (#[trigger] new_es@[y]).0 by {
                                        assert(new_es@[x] == old_es[x]);
                                        if y < old_es.len() {
                                            assert(new_es@[y] == old_es[y]);
                                        } else if old_es[x].0 == t {
                                            lemma_find_reaches(old_es, t, 0, x);
                                        }
                                    }
                                }
                            }
                            if keys_exact(old_node) && no_any(a) {
                                assert(no_any(rest));
                                assert(t != Type::Any);
                                assert(keys_exact(Node::Type(new_es))) by {
                                    assert forall|m: int| 0 <= m < new_es@.len() implies (#[trigger] new_es@[m]).0
                                        != Type::Any && keys_exact(new_es@[m].1) by {
                                        if m < old_es.len() {
                                            assert(new_es@[m] == old_es[m]);
                                        }
                                    }
                                }
                                assert forall|tys: Seq<Type>| no_any(tys) implies #[trigger] lookup(
                                    Node::Type(new_es),
                                    tys,
                                ) == lookup_after_define(lookup(old_node, tys), a, f, tys) by {
                                    if tys.len() > 0 {
                                        lemma_exact_match_step(a, tys);
                                        lemma_find_push(old_es, entry, tys[0], 0);
                                        lemma_find_range(old_es, tys[0], 0);
                                        let rtys = tys.drop_first();
                                        assert(no_any(rtys));
                                        lemma_chain_facts(c, rest, f, rtys);
                                        let j = find(old_es, tys[0]);
                                        if 0 <= j < old_es.len() {
                                            assert(old_es[j].0 == tys[0]);
                                            assert(es@[j] == old_es[j]);
                                            if tys[0] == t {
                                                assert(find(old_es, t) == j);
                                            }
                                        } else if tys[0] == t {
                                            assert(find(new_es@, tys[0]) == old_es.len());
                                        }
                                    }
                                }
                            }
                        }
                    },
                }
            },
        }
    }
}

/// Where a node already finds a function for stack types that a signature
/// matches exactly, a definition with that signature conflicts.
pub proof fn lemma_conflicts_where_found<T>(node: Node<T>, args: Seq<Type>, tys: Seq<Type>)
    requires
        lookup(node, tys) is Some,
        exact_match(args, tys),
    ensures
        conflicts(node, args) is Some,
    decreases args.len(),
{
    match node {
        Node::Function(_) => {},
        Node::Type(es) => {
            if args.len() > 0 {
                let t = args.last();
                assert(tys[0] == args[args.len() - 1]);
                let i = find(es@, t);
                let rest = args.drop_last();
                let tys2 = tys.drop_first();
                assert(exact_match(rest, tys2)) by {
                    assert forall|k: int| 0 <= k < rest.len() implies #[trigger] tys2[k] == rest[rest.len() - 1 - k] by {
                        assert(tys[k + 1] == args[args.len() - 1 - (k + 1)]);
                    }
                }
                lemma_conflicts_where_found(es@[i].1, rest, tys2);
            }
        },
    }
}

} // verus!
