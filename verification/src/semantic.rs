//! The semantic analyzer: walks the dependencies among type definitions
//! (including cyclic ones) to determine in what order they must be written.
//!
//! Analysis is refused wholesale if the parse recorded any unexpected token.
//! Given a clean parse it builds the definition table and partitions the
//! defined names: `order` is an emission order in which every type follows
//! its non-cyclic dependencies, and `cycles` collects the names swept into a
//! dependency cycle.

use vstd::prelude::*;
use vstd::pervasive::VecAdditionalExecFns;
use vstd::seq_lib::seq_to_set_is_finite;
use vstd::set_lib::lemma_len_subset;
use vstd::set_lib::lemma_set_subset_finite;
use crate::lexer::Token;
use crate::lexer::TokenView;
use crate::parser::Ast;
use crate::parser::AstView;
use crate::parser::Parser;
use crate::parser::ast_item_view;
use crate::parser::spec_parse_program;
use crate::parser::lemma_parse_program_shape;

verus! {

/// The parameter list of one definition: `(field name, field type name)`.
pub type ParamsView = Seq<(Seq<char>, Seq<char>)>;

/// The definition table: names with their parameter lists, in insertion
/// order. A later definition of the same name overwrites the earlier one in
/// place, so lookups find the first entry with the name.
pub type DefsView = Seq<(Seq<char>, ParamsView)>;

/// The dependency edges of a definition: the field type names.
pub open spec fn dep_names(params: ParamsView) -> Seq<Seq<char>> {
    params.map_values(|p: (Seq<char>, Seq<char>)| p.1)
}

/// The defined names, in table order.
pub open spec fn keys_of(defs: DefsView) -> Seq<Seq<char>> {
    defs.map_values(|e: (Seq<char>, ParamsView)| e.0)
}

/// The parameter list of the first entry with the given name, if any.
pub open spec fn lookup(defs: DefsView, n: Seq<char>) -> Option<ParamsView>
    decreases defs.len(),
{
    if defs.len() == 0 {
        None
    } else if defs[0].0 == n {
        Some(defs[0].1)
    } else {
        lookup(defs.skip(1), n)
    }
}

/// Every name the table mentions: the keys and all dependency names.
pub open spec fn names_seq(defs: DefsView) -> Seq<Seq<char>>
    decreases defs.len(),
{
    if defs.len() == 0 {
        Seq::empty()
    } else {
        seq![defs[0].0] + dep_names(defs[0].1) + names_seq(defs.skip(1))
    }
}

/// The names of the table, as a set.
pub open spec fn names_set(defs: DefsView) -> Set<Seq<char>> {
    names_seq(defs).to_set()
}

pub proof fn lemma_names_set_finite(defs: DefsView)
    ensures
        names_set(defs).finite(),
        names_set(defs).len() <= names_seq(defs).len(),
{
    broadcast use seq_to_set_is_finite;

    names_seq(defs).lemma_cardinality_of_set();
}

/// Unfolding the names of a non-empty table: the first key, its dependency
/// names, and everything the rest of the table mentions.
proof fn lemma_names_unfold(defs: DefsView)
    requires
        defs.len() > 0,
    ensures
        names_set(defs).contains(defs[0].0),
        forall|j: int|
            0 <= j < dep_names(defs[0].1).len() ==> names_set(defs).contains(
                #[trigger] dep_names(defs[0].1)[j],
            ),
        names_set(defs.skip(1)).subset_of(names_set(defs)),
{
    let head = seq![defs[0].0] + dep_names(defs[0].1);
    let tail = names_seq(defs.skip(1));
    assert(names_seq(defs) == head + tail);
    assert(names_seq(defs)[0] == defs[0].0);
    assert(names_seq(defs).contains(defs[0].0));
    assert forall|j: int| 0 <= j < dep_names(defs[0].1).len() implies names_set(defs).contains(
        #[trigger] dep_names(defs[0].1)[j],
    ) by {
        assert(names_seq(defs)[1 + j] == dep_names(defs[0].1)[j]);
        assert(names_seq(defs).contains(dep_names(defs[0].1)[j]));
    }
    assert forall|x: Seq<char>| names_set(defs.skip(1)).contains(x) implies names_set(
        defs,
    ).contains(x) by {
        let j = choose|j: int| 0 <= j < tail.len() && tail[j] == x;
        assert(names_seq(defs)[head.len() + j] == tail[j]);
        assert(names_seq(defs).contains(x));
    }
}

/// Every key of the table is among its names.
pub proof fn lemma_keys_in_names(defs: DefsView)
    ensures
        forall|i: int|
            0 <= i < defs.len() ==> names_set(defs).contains(#[trigger] keys_of(defs)[i]),
    decreases defs.len(),
{
    if defs.len() > 0 {
        lemma_names_unfold(defs);
        lemma_keys_in_names(defs.skip(1));
        assert forall|i: int| 0 <= i < defs.len() implies names_set(defs).contains(
            #[trigger] keys_of(defs)[i],
        ) by {
            if i > 0 {
                assert(keys_of(defs)[i] == keys_of(defs.skip(1))[i - 1]);
                assert(names_set(defs.skip(1)).contains(keys_of(defs.skip(1))[i - 1]));
            }
        }
    }
}

/// A name the table defines, and all its dependency names, are among the
/// table's names.
pub proof fn lemma_lookup_in_names(defs: DefsView, n: Seq<char>)
    requires
        lookup(defs, n) is Some,
    ensures
        names_set(defs).contains(n),
        forall|j: int|
            0 <= j < dep_names(lookup(defs, n)->Some_0).len() ==> names_set(defs).contains(
                #[trigger] dep_names(lookup(defs, n)->Some_0)[j],
            ),
    decreases defs.len(),
{
    lemma_names_unfold(defs);
    if defs[0].0 == n {
    } else {
        lemma_lookup_in_names(defs.skip(1), n);
    }
}

/// The shared state of the dependency walk.
pub struct AnalysisState {
    /// The emission order found so far; never shrinks.
    pub order: Seq<Seq<char>>,
    /// The names on the active walk path, plus finalized cycle members,
    /// which stay marked here.
    pub visited: Set<Seq<char>>,
    /// The names swept into a cycle; never shrinks.
    pub cycles: Set<Seq<char>>,
}

/// The state before any node is visited.
pub open spec fn init_state() -> AnalysisState {
    AnalysisState { order: Seq::empty(), visited: Set::empty(), cycles: Set::empty() }
}

/// How many of the table's names are not yet visited: the walk's measure.
pub open spec fn rank_of(defs: DefsView, visited: Set<Seq<char>>) -> nat {
    names_set(defs).difference(visited).len()
}

/// Visiting a node: a finalized node returns at once; a node already on the
/// walk path is a back-edge, and the whole current path is recorded as
/// cyclic; otherwise the node's dependencies are visited, and the node is
/// then appended to the order unless the walk below it swept it into a
/// cycle, in which case it stays marked as visited for good.
///
/// The `fuel` bounds the depth of the walk; with fuel at least one more than
/// `rank_of`, it never runs out (`lemma_visit_ok`).
pub open spec fn spec_visit(defs: DefsView, st: AnalysisState, n: Seq<char>, fuel: nat) -> Option<
    AnalysisState,
>
    decreases fuel, 0nat, 0nat,
{
    if st.order.contains(n) {
        Some(st)
    } else if st.visited.contains(n) {
        Some(AnalysisState { order: st.order, visited: st.visited, cycles: st.cycles.union(st.visited) })
    } else if fuel == 0 {
        None
    } else {
        let st1 = AnalysisState { order: st.order, visited: st.visited.insert(n), cycles: st.cycles };
        let walked = match lookup(defs, n) {
            Some(params) => spec_visit_deps(defs, st1, dep_names(params), (fuel - 1) as nat),
            None => Some(st1),
        };
        match walked {
            None => None,
            Some(st2) => Some(
                if st2.cycles.contains(n) {
                    st2
                } else {
                    AnalysisState {
                        order: st2.order.push(n),
                        visited: st2.visited.remove(n),
                        cycles: st2.cycles,
                    }
                },
            ),
        }
    }
}

/// Visiting a list of dependencies in order, threading the state through.
pub open spec fn spec_visit_deps(
    defs: DefsView,
    st: AnalysisState,
    deps: Seq<Seq<char>>,
    fuel: nat,
) -> Option<AnalysisState>
    decreases fuel, 1nat, deps.len(),
{
    if deps.len() == 0 {
        Some(st)
    } else {
        match spec_visit(defs, st, deps[0], fuel) {
            None => None,
            Some(st1) => spec_visit_deps(defs, st1, deps.skip(1), fuel),
        }
    }
}

/// Visiting a list of roots in order, threading the state through.
pub open spec fn spec_visit_roots(
    defs: DefsView,
    st: AnalysisState,
    roots: Seq<Seq<char>>,
    fuel: nat,
) -> Option<AnalysisState>
    decreases roots.len(),
{
    if roots.len() == 0 {
        Some(st)
    } else {
        match spec_visit(defs, st, roots[0], fuel) {
            None => None,
            Some(st1) => spec_visit_roots(defs, st1, roots.skip(1), fuel),
        }
    }
}

/// Fuel that is always enough for one visit: more names than the table has.
pub open spec fn analysis_fuel(defs: DefsView) -> nat {
    names_seq(defs).len() + 1
}

/// The whole analysis: visit every key of the table, in table order,
/// starting from the empty state.
pub open spec fn spec_analysis(defs: DefsView) -> Option<AnalysisState> {
    spec_visit_roots(defs, init_state(), keys_of(defs), analysis_fuel(defs))
}

/// Dependencies come first: every ordered definition's dependency is either
/// cyclic or stands earlier in the order.
pub open spec fn order_respects_deps(
    defs: DefsView,
    order: Seq<Seq<char>>,
    cycles: Set<Seq<char>>,
) -> bool {
    forall|j: int, t: Seq<char>|
        #![trigger order[j], cycles.contains(t)]
        (0 <= j < order.len() && lookup(defs, order[j]) is Some && dep_names(
            lookup(defs, order[j])->Some_0,
        ).contains(t) && !cycles.contains(t)) ==> exists|i: int| 0 <= i < j && order[i] == t
}

/// What holds of the walk state at every point: the order has no duplicates
/// and is disjoint from the path, cyclic names stay marked as visited, all
/// names come from the table, and the order respects the dependencies.
pub open spec fn st_inv(defs: DefsView, st: AnalysisState) -> bool {
    &&& st.order.no_duplicates()
    &&& forall|n: Seq<char>| #[trigger] st.order.contains(n) ==> !st.visited.contains(n)
    &&& forall|n: Seq<char>| #[trigger] st.order.contains(n) ==> names_set(defs).contains(n)
    &&& st.cycles.subset_of(st.visited)
    &&& st.visited.subset_of(names_set(defs))
    &&& order_respects_deps(defs, st.order, st.cycles)
}

proof fn lemma_prefix_refl(a: Seq<Seq<char>>)
    ensures
        a.is_prefix_of(a),
{
    assert(a =~= a.subrange(0, a.len() as int));
}

proof fn lemma_prefix_trans(a: Seq<Seq<char>>, b: Seq<Seq<char>>, c: Seq<Seq<char>>)
    requires
        a.is_prefix_of(b),
        b.is_prefix_of(c),
    ensures
        a.is_prefix_of(c),
{
    assert(a =~= c.subrange(0, a.len() as int)) by {
        assert forall|i: int| 0 <= i < a.len() implies a[i] == c.subrange(0, a.len() as int)[i] by {
            assert(a[i] == b.subrange(0, a.len() as int)[i]);
            assert(b[i] == c.subrange(0, b.len() as int)[i]);
        }
    }
}

proof fn lemma_prefix_push(a: Seq<Seq<char>>, x: Seq<char>)
    ensures
        a.is_prefix_of(a.push(x)),
{
    assert(a =~= a.push(x).subrange(0, a.len() as int));
}

proof fn lemma_prefix_contains(a: Seq<Seq<char>>, b: Seq<Seq<char>>, x: Seq<char>)
    requires
        a.is_prefix_of(b),
        a.contains(x),
    ensures
        b.contains(x),
{
    let i = choose|i: int| 0 <= i < a.len() && a[i] == x;
    assert(a[i] == b.subrange(0, a.len() as int)[i]);
    assert(b[i] == x);
}

proof fn lemma_rank_mono(defs: DefsView, v1: Set<Seq<char>>, v2: Set<Seq<char>>)
    requires
        v1.subset_of(v2),
    ensures
        rank_of(defs, v2) <= rank_of(defs, v1),
{
    broadcast use lemma_set_subset_finite;

    lemma_names_set_finite(defs);
    let d1 = names_set(defs).difference(v1);
    let d2 = names_set(defs).difference(v2);
    assert(d1.subset_of(names_set(defs)));
    assert(d2.subset_of(d1));
    lemma_len_subset(d2, d1);
}

proof fn lemma_rank_insert(defs: DefsView, v: Set<Seq<char>>, n: Seq<char>)
    requires
        names_set(defs).contains(n),
        !v.contains(n),
    ensures
        rank_of(defs, v.insert(n)) == rank_of(defs, v) - 1,
{
    broadcast use lemma_set_subset_finite;

    lemma_names_set_finite(defs);
    let d = names_set(defs).difference(v);
    assert(d.subset_of(names_set(defs)));
    assert(names_set(defs).difference(v.insert(n)) =~= d.remove(n));
    assert(d.contains(n));
    assert(d.remove(n).len() == d.len() - 1);
}

/// Finalizing a visited node that no cycle swept up: appending it to the
/// order and taking it off the path preserves the invariant, provided all
/// its dependencies (if it is defined) are already placed.
proof fn lemma_finalize(defs: DefsView, st2: AnalysisState, n: Seq<char>)
    requires
        st_inv(defs, st2),
        st2.visited.contains(n),
        names_set(defs).contains(n),
        !st2.cycles.contains(n),
        lookup(defs, n) is Some ==> forall|j: int|
            0 <= j < dep_names(lookup(defs, n)->Some_0).len() ==> st2.order.contains(
                #[trigger] dep_names(lookup(defs, n)->Some_0)[j],
            ) || st2.cycles.contains(dep_names(lookup(defs, n)->Some_0)[j]),
    ensures
        st_inv(
            defs,
            AnalysisState {
                order: st2.order.push(n),
                visited: st2.visited.remove(n),
                cycles: st2.cycles,
            },
        ),
{
    let r = AnalysisState {
        order: st2.order.push(n),
        visited: st2.visited.remove(n),
        cycles: st2.cycles,
    };
    assert(!st2.order.contains(n));
    assert(r.order.no_duplicates()) by {
        assert forall|i: int, j: int| 0 <= i < j < r.order.len() implies r.order[i] != r.order[j] by {
            if j < st2.order.len() {
            } else {
                assert(r.order[i] == st2.order[i]);
                assert(st2.order.contains(st2.order[i]));
            }
        }
    }
    assert forall|m: Seq<char>| #[trigger] r.order.contains(m) implies !r.visited.contains(m) by {
        let i = choose|i: int| 0 <= i < r.order.len() && r.order[i] == m;
        if i < st2.order.len() {
            assert(st2.order.contains(m));
        }
    }
    assert forall|m: Seq<char>| #[trigger] r.order.contains(m) implies names_set(defs).contains(
        m,
    ) by {
        let i = choose|i: int| 0 <= i < r.order.len() && r.order[i] == m;
        if i < st2.order.len() {
            assert(st2.order.contains(m));
        }
    }
    assert(order_respects_deps(defs, r.order, r.cycles)) by {
        assert forall|j: int, t: Seq<char>|
            #![trigger r.order[j], r.cycles.contains(t)]
            (0 <= j < r.order.len() && lookup(defs, r.order[j]) is Some && dep_names(
                lookup(defs, r.order[j])->Some_0,
            ).contains(t) && !r.cycles.contains(t)) implies exists|i: int|
            0 <= i < j && r.order[i] == t by {
            if j < st2.order.len() {
                assert(r.order[j] == st2.order[j]);
                assert(exists|i: int| 0 <= i < j && st2.order[i] == t);
                let i = choose|i: int| 0 <= i < j && st2.order[i] == t;
                assert(r.order[i] == t);
            } else {
                assert(r.order[j] == n);
                let deps = dep_names(lookup(defs, n)->Some_0);
                let k = choose|k: int| 0 <= k < deps.len() && deps[k] == t;
                assert(st2.order.contains(t) || st2.cycles.contains(t));
                assert(st2.order.contains(t));
                let i = choose|i: int| 0 <= i < st2.order.len() && st2.order[i] == t;
                assert(r.order[i] == t);
            }
        }
    }
}

/// Every visited name is defined: the walk path and the cycle members left
/// marked on it only ever hold keys of the table, because the walk recurses
/// only into defined names and an undefined one is taken off the path at
/// once.
pub open spec fn visited_defined(defs: DefsView, st: AnalysisState) -> bool {
    forall|x: Seq<char>| #[trigger] st.visited.contains(x) ==> lookup(defs, x) is Some
}

/// The dependencies of the name, if it is defined, are all placed in the
/// order or in the cycles.
pub open spec fn deps_placed(defs: DefsView, x: Seq<char>, st: AnalysisState) -> bool {
    lookup(defs, x) is Some ==> forall|j: int|
        0 <= j < dep_names(lookup(defs, x)->Some_0).len() ==> st.order.contains(
            #[trigger] dep_names(lookup(defs, x)->Some_0)[j],
        ) || st.cycles.contains(dep_names(lookup(defs, x)->Some_0)[j])
}

proof fn lemma_deps_placed_mono(defs: DefsView, x: Seq<char>, a: AnalysisState, b: AnalysisState)
    requires
        deps_placed(defs, x, a),
        a.order.is_prefix_of(b.order),
        a.cycles.subset_of(b.cycles),
    ensures
        deps_placed(defs, x, b),
{
    if lookup(defs, x) is Some {
        assert forall|j: int| 0 <= j < dep_names(lookup(defs, x)->Some_0).len() implies b.order.contains(
            #[trigger] dep_names(lookup(defs, x)->Some_0)[j],
        ) || b.cycles.contains(dep_names(lookup(defs, x)->Some_0)[j]) by {
            if a.order.contains(dep_names(lookup(defs, x)->Some_0)[j]) {
                lemma_prefix_contains(a.order, b.order, dep_names(lookup(defs, x)->Some_0)[j]);
            }
        }
    }
}

proof fn lemma_lookup_some_is_key(defs: DefsView, k: Seq<char>)
    requires
        lookup(defs, k) is Some,
    ensures
        keys_of(defs).contains(k),
    decreases defs.len(),
{
    if defs[0].0 == k {
        assert(keys_of(defs)[0] == k);
    } else {
        lemma_lookup_some_is_key(defs.skip(1), k);
        let i = choose|i: int|
            0 <= i < keys_of(defs.skip(1)).len() && keys_of(defs.skip(1))[i] == k;
        assert(keys_of(defs)[i + 1] == keys_of(defs.skip(1))[i]);
    }
}

/// The walk, with fuel beyond the number of unvisited names, returns: it
/// preserves the invariant, only grows the order, the visited set and the
/// cycles, leaves the visited node placed in the order or in the cycles, and
/// every name it newly leaves marked as visited has all its dependencies
/// placed.
proof fn lemma_visit_ok(defs: DefsView, st: AnalysisState, n: Seq<char>, fuel: nat)
    requires
        st_inv(defs, st),
        visited_defined(defs, st),
        names_set(defs).contains(n),
        fuel >= rank_of(defs, st.visited) + 1,
    ensures
        spec_visit(defs, st, n, fuel) is Some,
        ({
            let r = spec_visit(defs, st, n, fuel)->Some_0;
            st_inv(defs, r) && visited_defined(defs, r) && st.order.is_prefix_of(r.order)
                && st.visited.subset_of(r.visited) && st.cycles.subset_of(r.cycles) && (
            r.order.contains(n) || r.cycles.contains(n)) && forall|x: Seq<char>|
                #[trigger] r.visited.contains(x) && !st.visited.contains(x) ==> deps_placed(
                    defs,
                    x,
                    r,
                )
        }),
    decreases fuel, 0nat, 0nat,
{
    if st.order.contains(n) {
        lemma_prefix_refl(st.order);
    } else if st.visited.contains(n) {
        lemma_prefix_refl(st.order);
        let r = AnalysisState {
            order: st.order,
            visited: st.visited,
            cycles: st.cycles.union(st.visited),
        };
        assert(order_respects_deps(defs, r.order, r.cycles)) by {
            assert forall|j: int, t: Seq<char>|
                #![trigger r.order[j], r.cycles.contains(t)]
                (0 <= j < r.order.len() && lookup(defs, r.order[j]) is Some && dep_names(
                    lookup(defs, r.order[j])->Some_0,
                ).contains(t) && !r.cycles.contains(t)) implies exists|i: int|
                0 <= i < j && r.order[i] == t by {
                assert(!st.cycles.contains(t));
            }
        }
    } else {
        assert(fuel >= 1);
        let st1 = AnalysisState {
            order: st.order,
            visited: st.visited.insert(n),
            cycles: st.cycles,
        };
        lemma_rank_insert(defs, st.visited, n);
        assert(st_inv(defs, st1)) by {
            assert(order_respects_deps(defs, st1.order, st1.cycles));
        }
        lemma_prefix_refl(st.order);
        let walked = match lookup(defs, n) {
            Some(params) => spec_visit_deps(defs, st1, dep_names(params), (fuel - 1) as nat),
            None => Some(st1),
        };
        match lookup(defs, n) {
            Some(params) => {
                lemma_lookup_in_names(defs, n);
                lemma_visit_deps_ok(defs, st1, dep_names(params), (fuel - 1) as nat);
            },
            None => {},
        }
        let st2 = walked->Some_0;
        assert(st2.visited.contains(n));
        if lookup(defs, n) is Some {
            assert(deps_placed(defs, n, st2));
        } else {
            assert(!st2.cycles.contains(n));
        }
        if st2.cycles.contains(n) {
            lemma_prefix_trans(st.order, st1.order, st2.order);
            assert forall|x: Seq<char>|
                #[trigger] st2.visited.contains(x) && !st.visited.contains(x) implies deps_placed(
                defs,
                x,
                st2,
            ) by {
                if x != n {
                    assert(!st1.visited.contains(x));
                }
            }
        } else {
            lemma_finalize(defs, st2, n);
            let r = AnalysisState {
                order: st2.order.push(n),
                visited: st2.visited.remove(n),
                cycles: st2.cycles,
            };
            lemma_prefix_push(st2.order, n);
            lemma_prefix_trans(st.order, st2.order, r.order);
            assert(r.order[st2.order.len() as int] == n);
            assert(r.order.contains(n));
            assert(st.visited.subset_of(r.visited)) by {
                assert forall|m: Seq<char>| st.visited.contains(m) implies r.visited.contains(
                    m,
                ) by {
                    assert(st1.visited.contains(m));
                    assert(m != n);
                }
            }
            assert forall|x: Seq<char>|
                #[trigger] r.visited.contains(x) && !st.visited.contains(x) implies deps_placed(
                defs,
                x,
                r,
            ) by {
                assert(x != n);
                assert(!st1.visited.contains(x));
                assert(deps_placed(defs, x, st2));
                lemma_deps_placed_mono(defs, x, st2, r);
            }
            assert(visited_defined(defs, r)) by {
                assert forall|x: Seq<char>| #[trigger] r.visited.contains(x) implies lookup(
                    defs,
                    x,
                ) is Some by {
                    if !st.visited.contains(x) && x != n {
                        assert(st2.visited.contains(x));
                    }
                }
            }
        }
    }
}

/// Visiting a list of dependencies, all of them names of the table: the
/// state only grows, and afterwards every one of them is placed.
proof fn lemma_visit_deps_ok(defs: DefsView, st: AnalysisState, deps: Seq<Seq<char>>, fuel: nat)
    requires
        st_inv(defs, st),
        visited_defined(defs, st),
        forall|j: int| 0 <= j < deps.len() ==> names_set(defs).contains(#[trigger] deps[j]),
        fuel >= rank_of(defs, st.visited) + 1,
    ensures
        spec_visit_deps(defs, st, deps, fuel) is Some,
        ({
            let r = spec_visit_deps(defs, st, deps, fuel)->Some_0;
            st_inv(defs, r) && visited_defined(defs, r) && st.order.is_prefix_of(r.order)
                && st.visited.subset_of(r.visited) && st.cycles.subset_of(r.cycles) && (forall|
                j: int,
            |
                0 <= j < deps.len() ==> r.order.contains(#[trigger] deps[j]) || r.cycles.contains(
                    deps[j],
                )) && forall|x: Seq<char>|
                #[trigger] r.visited.contains(x) && !st.visited.contains(x) ==> deps_placed(
                    defs,
                    x,
                    r,
                )
        }),
    decreases fuel, 1nat, deps.len(),
{
    if deps.len() == 0 {
        lemma_prefix_refl(st.order);
    } else {
        lemma_visit_ok(defs, st, deps[0], fuel);
        let m = spec_visit(defs, st, deps[0], fuel)->Some_0;
        lemma_rank_mono(defs, st.visited, m.visited);
        lemma_visit_deps_ok(defs, m, deps.skip(1), fuel);
        let r = spec_visit_deps(defs, m, deps.skip(1), fuel)->Some_0;
        lemma_prefix_trans(st.order, m.order, r.order);
        assert forall|j: int| 0 <= j < deps.len() implies r.order.contains(#[trigger] deps[j])
            || r.cycles.contains(deps[j]) by {
            if j == 0 {
                if m.order.contains(deps[0]) {
                    lemma_prefix_contains(m.order, r.order, deps[0]);
                }
            } else {
                assert(deps.skip(1)[j - 1] == deps[j]);
                assert(r.order.contains(deps.skip(1)[j - 1]) || r.cycles.contains(
                    deps.skip(1)[j - 1],
                ));
            }
        }
        assert forall|x: Seq<char>|
            #[trigger] r.visited.contains(x) && !st.visited.contains(x) implies deps_placed(
            defs,
            x,
            r,
        ) by {
            if m.visited.contains(x) {
                assert(deps_placed(defs, x, m));
                lemma_deps_placed_mono(defs, x, m, r);
            }
        }
    }
}

/// Visiting a list of roots, all of them names of the table: as for
/// dependency lists.
proof fn lemma_visit_roots_ok(defs: DefsView, st: AnalysisState, roots: Seq<Seq<char>>, fuel: nat)
    requires
        st_inv(defs, st),
        visited_defined(defs, st),
        forall|j: int| 0 <= j < roots.len() ==> names_set(defs).contains(#[trigger] roots[j]),
        fuel >= rank_of(defs, st.visited) + 1,
    ensures
        spec_visit_roots(defs, st, roots, fuel) is Some,
        ({
            let r = spec_visit_roots(defs, st, roots, fuel)->Some_0;
            st_inv(defs, r) && visited_defined(defs, r) && st.order.is_prefix_of(r.order)
                && st.visited.subset_of(r.visited) && st.cycles.subset_of(r.cycles) && (forall|
                j: int,
            |
                0 <= j < roots.len() ==> r.order.contains(#[trigger] roots[j]) || r.cycles.contains(
                    roots[j],
                )) && forall|x: Seq<char>|
                #[trigger] r.visited.contains(x) && !st.visited.contains(x) ==> deps_placed(
                    defs,
                    x,
                    r,
                )
        }),
    decreases roots.len(),
{
    if roots.len() == 0 {
        lemma_prefix_refl(st.order);
    } else {
        lemma_visit_ok(defs, st, roots[0], fuel);
        let m = spec_visit(defs, st, roots[0], fuel)->Some_0;
        lemma_rank_mono(defs, st.visited, m.visited);
        lemma_visit_roots_ok(defs, m, roots.skip(1), fuel);
        let r = spec_visit_roots(defs, m, roots.skip(1), fuel)->Some_0;
        lemma_prefix_trans(st.order, m.order, r.order);
        assert forall|j: int| 0 <= j < roots.len() implies r.order.contains(#[trigger] roots[j])
            || r.cycles.contains(roots[j]) by {
            if j == 0 {
                if m.order.contains(roots[0]) {
                    lemma_prefix_contains(m.order, r.order, roots[0]);
                }
            } else {
                assert(roots.skip(1)[j - 1] == roots[j]);
                assert(r.order.contains(roots.skip(1)[j - 1]) || r.cycles.contains(
                    roots.skip(1)[j - 1],
                ));
            }
        }
        assert forall|x: Seq<char>|
            #[trigger] r.visited.contains(x) && !st.visited.contains(x) implies deps_placed(
            defs,
            x,
            r,
        ) by {
            if m.visited.contains(x) {
                assert(deps_placed(defs, x, m));
                lemma_deps_placed_mono(defs, x, m, r);
            }
        }
    }
}

/// The analysis of any table returns, its result satisfies the invariant,
/// every key of the table is placed in the order or in the cycles, every
/// name left marked as visited is a defined one, and every such name has all
/// its dependencies placed.
pub proof fn lemma_analysis_ok(defs: DefsView)
    ensures
        spec_analysis(defs) is Some,
        ({
            let r = spec_analysis(defs)->Some_0;
            st_inv(defs, r) && visited_defined(defs, r) && (forall|i: int|
                0 <= i < defs.len() ==> r.order.contains(#[trigger] keys_of(defs)[i])
                    || r.cycles.contains(keys_of(defs)[i])) && forall|x: Seq<char>|
                #[trigger] r.visited.contains(x) ==> deps_placed(defs, x, r)
        }),
{
    let st = init_state();
    assert(st_inv(defs, st));
    assert(visited_defined(defs, st));
    lemma_keys_in_names(defs);
    lemma_names_set_finite(defs);
    assert(names_set(defs).difference(Set::empty()) =~= names_set(defs));
    assert(rank_of(defs, st.visited) <= names_seq(defs).len());
    lemma_visit_roots_ok(defs, st, keys_of(defs), analysis_fuel(defs));
    let r = spec_analysis(defs)->Some_0;
    assert forall|x: Seq<char>| #[trigger] r.visited.contains(x) implies deps_placed(
        defs,
        x,
        r,
    ) by {
        assert(!st.visited.contains(x));
    }
}

/// Law: every key of the definition table ends in exactly one of `order` and
/// `cycles`; and no name, defined or not, stands in both.
pub proof fn lemma_analysis_partition(defs: DefsView)
    ensures
        spec_analysis(defs) is Some,
        ({
            let r = spec_analysis(defs)->Some_0;
            &&& forall|i: int|
                0 <= i < defs.len() ==> (r.order.contains(#[trigger] defs[i].0)
                    <==> !r.cycles.contains(defs[i].0))
            &&& forall|n: Seq<char>| #[trigger] r.order.contains(n) ==> !r.cycles.contains(n)
        }),
{
    lemma_analysis_ok(defs);
    let r = spec_analysis(defs)->Some_0;
    assert forall|n: Seq<char>| #[trigger] r.order.contains(n) implies !r.cycles.contains(n) by {
        assert(r.cycles.contains(n) ==> r.visited.contains(n));
    }
    assert forall|i: int| 0 <= i < defs.len() implies (r.order.contains(#[trigger] defs[i].0)
        <==> !r.cycles.contains(defs[i].0)) by {
        assert(keys_of(defs)[i] == defs[i].0);
        assert(r.order.contains(keys_of(defs)[i]) || r.cycles.contains(keys_of(defs)[i]));
    }
}

/// Law: no name appears in the emission order twice.
pub proof fn lemma_analysis_no_duplicates(defs: DefsView)
    ensures
        spec_analysis(defs) is Some,
        spec_analysis(defs)->Some_0.order.no_duplicates(),
{
    lemma_analysis_ok(defs);
}

/// Law: dependencies come first. Wherever a definition stands in the
/// emission order, each of its dependency names is either in `cycles` or
/// stands strictly earlier in the order.
pub proof fn lemma_analysis_dependency_order(defs: DefsView)
    ensures
        spec_analysis(defs) is Some,
        order_respects_deps(
            defs,
            spec_analysis(defs)->Some_0.order,
            spec_analysis(defs)->Some_0.cycles,
        ),
{
    lemma_analysis_ok(defs);
}

/// Law: a name that is referenced as a field type somewhere in the table
/// but never defined is placed in the emission order and never in the
/// cycles: visiting it finds no definition, so the walk finalizes it at
/// once, harmlessly. It appears exactly once by
/// `lemma_analysis_no_duplicates`, and by `lemma_analysis_dependency_order`
/// it stands before every ordered definition that references it.
pub proof fn lemma_analysis_undefined_dependency(defs: DefsView, u: Seq<char>)
    requires
        lookup(defs, u) is None,
        exists|k: Seq<char>|
            (#[trigger] lookup(defs, k)) is Some && dep_names(lookup(defs, k)->Some_0).contains(u),
    ensures
        spec_analysis(defs) is Some,
        spec_analysis(defs)->Some_0.order.contains(u),
        !spec_analysis(defs)->Some_0.cycles.contains(u),
{
    lemma_analysis_ok(defs);
    let r = spec_analysis(defs)->Some_0;
    assert(!r.cycles.contains(u)) by {
        if r.cycles.contains(u) {
            assert(r.visited.contains(u));
        }
    }
    let k = choose|k: Seq<char>|
        (#[trigger] lookup(defs, k)) is Some && dep_names(lookup(defs, k)->Some_0).contains(u);
    lemma_lookup_some_is_key(defs, k);
    let i = choose|i: int| 0 <= i < keys_of(defs).len() && keys_of(defs)[i] == k;
    assert(r.order.contains(k) || r.cycles.contains(k));
    if r.order.contains(k) {
        let j = choose|j: int| 0 <= j < r.order.len() && r.order[j] == k;
        assert(dep_names(lookup(defs, r.order[j])->Some_0).contains(u));
        assert(exists|i2: int| 0 <= i2 < j && r.order[i2] == u);
        let i2 = choose|i2: int| 0 <= i2 < j && r.order[i2] == u;
        assert(r.order.contains(u));
    } else {
        assert(r.visited.contains(k));
        assert(deps_placed(defs, k, r));
        let jd = choose|jd: int|
            0 <= jd < dep_names(lookup(defs, k)->Some_0).len() && dep_names(
                lookup(defs, k)->Some_0,
            )[jd] == u;
        assert(r.order.contains(dep_names(lookup(defs, k)->Some_0)[jd]) || r.cycles.contains(
            dep_names(lookup(defs, k)->Some_0)[jd],
        ));
    }
}

/// Law: the analysis is a pure function of the definition table. Running it
/// twice on the same table yields identical `order` and `cycles`; there is
/// no hidden state to mutate between runs.
pub proof fn lemma_analysis_repeatable(d1: DefsView, d2: DefsView)
    requires
        d1 == d2,
    ensures
        spec_analysis(d1) == spec_analysis(d2),
{
}

/// One parameter list, read off a definition node: the `(field, type)` pairs
/// of its `Parameter` entries, anything else filtered out.
pub open spec fn spec_params_of(ps: Seq<AstView>) -> ParamsView
    decreases ps.len(),
{
    if ps.len() == 0 {
        Seq::empty()
    } else {
        match ps[0] {
            AstView::Parameter(a, b) => seq![(a, b)] + spec_params_of(ps.skip(1)),
            _ => spec_params_of(ps.skip(1)),
        }
    }
}

/// Inserting one definition: a later definition of the same name overwrites
/// the earlier one in place; a new name goes to the end.
pub open spec fn table_insert(defs: DefsView, name: Seq<char>, params: ParamsView) -> DefsView
    decreases defs.len(),
{
    if defs.len() == 0 {
        seq![(name, params)]
    } else if defs[0].0 == name {
        seq![(name, params)] + defs.skip(1)
    } else {
        seq![defs[0]] + table_insert(defs.skip(1), name, params)
    }
}

/// Folding the parsed nodes into the definition table and the collection of
/// unexpected tokens.
pub open spec fn spec_collect(nodes: Seq<AstView>, defs: DefsView, errs: Seq<TokenView>) -> (
    DefsView,
    Seq<TokenView>,
)
    decreases nodes.len(),
{
    if nodes.len() == 0 {
        (defs, errs)
    } else {
        match nodes[0] {
            AstView::TypeDefinition(n, ps) => spec_collect(
                nodes.skip(1),
                table_insert(defs, n, spec_params_of(ps)),
                errs,
            ),
            AstView::Unexpected(t) => spec_collect(nodes.skip(1), defs, errs.push(t)),
            _ => spec_collect(nodes.skip(1), defs, errs),
        }
    }
}

/// The definition table of a parsed program.
pub open spec fn program_table(nodes: Seq<AstView>) -> DefsView {
    spec_collect(nodes, Seq::empty(), Seq::empty()).0
}

/// The unexpected tokens of a parsed program, in order of appearance.
pub open spec fn program_errors(nodes: Seq<AstView>) -> Seq<TokenView> {
    spec_collect(nodes, Seq::empty(), Seq::empty()).1
}

proof fn lemma_to_set_push(s: Seq<Seq<char>>, x: Seq<char>)
    ensures
        s.push(x).to_set() == s.to_set().insert(x),
{
    assert forall|e: Seq<char>| s.push(x).to_set().contains(e) implies s.to_set().insert(
        x,
    ).contains(e) by {
        let i = choose|i: int| 0 <= i < s.push(x).len() && s.push(x)[i] == e;
        if i < s.len() {
            assert(s[i] == e);
        }
    }
    assert forall|e: Seq<char>| s.to_set().insert(x).contains(e) implies s.push(x).to_set().contains(
        e,
    ) by {
        if s.to_set().contains(e) {
            let i = choose|i: int| 0 <= i < s.len() && s[i] == e;
            assert(s.push(x)[i] == e);
        } else {
            assert(s.push(x)[s.len() as int] == e);
        }
    }
    assert(s.push(x).to_set() =~= s.to_set().insert(x));
}

proof fn lemma_to_set_remove_at(s: Seq<Seq<char>>, i: int)
    requires
        s.no_duplicates(),
        0 <= i < s.len(),
    ensures
        s.remove(i).to_set() == s.to_set().remove(s[i]),
        s.remove(i).no_duplicates(),
{
    let t = s.remove(i);
    assert forall|e: Seq<char>| t.to_set().contains(e) implies s.to_set().remove(s[i]).contains(
        e,
    ) by {
        let k = choose|k: int| 0 <= k < t.len() && t[k] == e;
        if k < i {
            assert(s[k] == e);
        } else {
            assert(s[k + 1] == e);
        }
    }
    assert forall|e: Seq<char>| s.to_set().remove(s[i]).contains(e) implies t.to_set().contains(
        e,
    ) by {
        let k = choose|k: int| 0 <= k < s.len() && s[k] == e;
        assert(k != i);
        if k < i {
            assert(t[k] == e);
        } else {
            assert(t[k - 1] == e);
        }
    }
    assert(t.to_set() =~= s.to_set().remove(s[i]));
    assert forall|a: int, b: int| 0 <= a < b < t.len() implies t[a] != t[b] by {
        if b < i {
        } else if a < i {
            assert(t[a] == s[a] && t[b] == s[b + 1]);
        } else {
            assert(t[a] == s[a + 1] && t[b] == s[b + 1]);
        }
    }
}

/// Whether the name stands in the list.
fn contains_name(v: &Vec<String>, n: &String) -> (r: bool)
    ensures
        r == v.deep_view().contains(n@),
{
    let mut i: usize = 0;
    while i < v.len()
        invariant
            i <= v@.len(),
            forall|j: int| 0 <= j < i ==> v.deep_view()[j] != n@,
        decreases v@.len() - i,
    {
        if *n == v[i] {
            proof {
                assert(v.deep_view()[i as int] == n@);
            }
            return true;
        }
        i = i + 1;
    }
    proof {
        assert forall|j: int| 0 <= j < v.deep_view().len() implies v.deep_view()[j] != n@ by {}
    }
    false
}

/// Adds to `cycles` every name of `visited` not already there.
fn add_all_missing(cycles: &mut Vec<String>, visited: &Vec<String>)
    requires
        old(cycles).deep_view().no_duplicates(),
    ensures
        final(cycles).deep_view().no_duplicates(),
        final(cycles).deep_view().to_set() == old(cycles).deep_view().to_set().union(
            visited.deep_view().to_set(),
        ),
{
    let ghost orig = cycles.deep_view().to_set();
    let ghost vs = visited.deep_view();
    let mut i: usize = 0;
    while i < visited.len()
        invariant
            i <= vs.len(),
            vs == visited.deep_view(),
            cycles.deep_view().no_duplicates(),
            cycles.deep_view().to_set() == orig.union(vs.take(i as int).to_set()),
        decreases vs.len() - i,
    {
        let ghost pre = cycles.deep_view();
        let item = &visited[i];
        proof {
            assert(vs[i as int] == item@);
            assert(vs.take(i as int + 1) =~= vs.take(i as int).push(vs[i as int]));
            lemma_to_set_push(vs.take(i as int), vs[i as int]);
        }
        if !contains_name(cycles, item) {
            cycles.push(item.clone());
            proof {
                assert(cycles.deep_view() =~= pre.push(item@));
                lemma_to_set_push(pre, item@);
                assert(cycles.deep_view().to_set() =~= orig.union(vs.take(i as int + 1).to_set()));
                assert forall|a: int, b: int|
                    0 <= a < b < cycles.deep_view().len() implies cycles.deep_view()[a]
                    != cycles.deep_view()[b] by {
                    if b == pre.len() {
                        assert(pre[a] == cycles.deep_view()[a]);
                        assert(pre.contains(pre[a]));
                    }
                }
            }
        } else {
            proof {
                assert(cycles.deep_view().to_set() =~= orig.union(vs.take(i as int + 1).to_set()));
            }
        }
        i = i + 1;
    }
    proof {
        assert(vs.take(vs.len() as int) =~= vs);
    }
}

/// Removes the one entry with the given name from the list.
fn remove_name(v: &mut Vec<String>, n: &String)
    requires
        old(v).deep_view().no_duplicates(),
        old(v).deep_view().contains(n@),
    ensures
        final(v).deep_view().no_duplicates(),
        final(v).deep_view().to_set() == old(v).deep_view().to_set().remove(n@),
{
    let ghost dv = v.deep_view();
    let mut i: usize = 0;
    while i < v.len()
        invariant
            i <= dv.len(),
            dv == v.deep_view(),
            dv == old(v).deep_view(),
            dv.no_duplicates(),
            dv.contains(n@),
            forall|j: int| 0 <= j < i ==> dv[j] != n@,
        decreases dv.len() - i,
    {
        if *n == v[i] {
            proof {
                assert(dv[i as int] == n@);
            }
            let _ = v.remove(i);
            proof {
                assert(v.deep_view() =~= dv.remove(i as int));
                lemma_to_set_remove_at(dv, i as int);
            }
            return;
        }
        i = i + 1;
    }
    proof {
        assert(false);
    }
}

/// An exact copy of a parameter list.
fn clone_params(ps: &Vec<(String, String)>) -> (r: Vec<(String, String)>)
    ensures
        r@ == ps@,
{
    let mut r: Vec<(String, String)> = Vec::new();
    let mut i: usize = 0;
    while i < ps.len()
        invariant
            i <= ps@.len(),
            r@ == ps@.take(i as int),
        decreases ps@.len() - i,
    {
        let a = ps[i].0.clone();
        let b = ps[i].1.clone();
        r.push((a, b));
        proof {
            assert((a, b) == ps@[i as int]);
            assert(r@ =~= ps@.take(i as int + 1));
        }
        i = i + 1;
    }
    proof {
        assert(ps@.take(ps@.len() as int) =~= ps@);
    }
    r
}

/// The parameter list of the first definition with the given name, if any,
/// as a copy that leaves the table untouched.
fn lookup_definition(defs: &Vec<(String, Vec<(String, String)>)>, n: &String) -> (r: Option<
    Vec<(String, String)>,
>)
    ensures
        match r {
            Some(ps) => lookup(defs.deep_view(), n@) == Some(ps.deep_view()),
            None => lookup(defs.deep_view(), n@) is None,
        },
{
    let ghost dv = defs.deep_view();
    let mut i: usize = 0;
    proof {
        assert(dv.skip(0) =~= dv);
    }
    while i < defs.len()
        invariant
            i <= dv.len(),
            dv == defs.deep_view(),
            lookup(dv, n@) == lookup(dv.skip(i as int), n@),
        decreases dv.len() - i,
    {
        proof {
            assert(dv.skip(i as int)[0] == dv[i as int]);
        }
        if *n == defs[i].0 {
            let ps = clone_params(&defs[i].1);
            proof {
                assert(dv[i as int].0 == n@);
                assert(ps.deep_view() =~= defs@[i as int].1.deep_view());
            }
            return Some(ps);
        }
        proof {
            assert(dv[i as int].0 != n@);
            assert(dv.skip(i as int).skip(1) =~= dv.skip(i as int + 1));
        }
        i = i + 1;
    }
    proof {
        assert(dv.skip(dv.len() as int).len() == 0);
    }
    None
}

/// Inserts one definition into the table: a repeated name overwrites in
/// place, a new one goes to the end.
fn insert_definition(
    defs: &mut Vec<(String, Vec<(String, String)>)>,
    name: String,
    params: Vec<(String, String)>,
)
    ensures
        final(defs).deep_view() == table_insert(old(defs).deep_view(), name@, params.deep_view()),
{
    let ghost dv = old(defs).deep_view();
    let ghost pv = params.deep_view();
    let ghost nv = name@;
    let mut i: usize = 0;
    proof {
        assert(dv.skip(0) =~= dv);
        assert(dv.take(0) + table_insert(dv.skip(0), name@, pv) =~= table_insert(dv, name@, pv));
    }
    while i < defs.len()
        invariant
            i <= dv.len(),
            dv == defs.deep_view(),
            defs@ == old(defs)@,
            pv == params.deep_view(),
            nv == name@,
            table_insert(dv, nv, pv) == dv.take(i as int) + table_insert(
                dv.skip(i as int),
                nv,
                pv,
            ),
        decreases dv.len() - i,
    {
        proof {
            assert(dv.skip(i as int)[0] == dv[i as int]);
        }
        if name == defs[i].0 {
            proof {
                assert(dv[i as int].0 == nv);
            }
            let ghost pre = defs@;
            let entry = (name, params);
            let ghost tv = entry;
            proof {
                assert(tv.0@ == nv);
                assert(tv.1.deep_view() == pv);
            }
            defs.set(i, entry);
            proof {
                assert(defs@[i as int] == tv);
                assert forall|k: int| 0 <= k < defs@.len() implies defs.deep_view()[k] == dv.update(
                    i as int,
                    (nv, pv),
                )[k] by {
                    if k != i {
                        assert(defs@[k] == pre[k]);
                        assert(dv[k] == pre[k].deep_view());
                    }
                }
                assert(defs.deep_view() =~= dv.update(i as int, (nv, pv)));
                assert(dv.skip(i as int).skip(1) =~= dv.skip(i as int + 1));
                assert(dv.take(i as int) + (seq![(nv, pv)] + dv.skip(i as int + 1)) =~= dv.update(
                    i as int,
                    (nv, pv),
                ));
            }
            return;
        }
        proof {
            assert(dv[i as int].0 != nv);
            assert(dv.skip(i as int).skip(1) =~= dv.skip(i as int + 1));
            assert(dv.take(i as int) + (seq![dv[i as int]] + table_insert(
                dv.skip(i as int + 1),
                nv,
                pv,
            )) =~= dv.take(i as int + 1) + table_insert(dv.skip(i as int + 1), nv, pv));
        }
        i = i + 1;
    }
    proof {
        assert(dv.skip(dv.len() as int).len() == 0);
    }
    let ghost pre = defs@;
    let entry = (name, params);
    let ghost tv = entry;
    proof {
        assert(tv.0@ == nv);
        assert(tv.1.deep_view() == pv);
    }
    defs.push(entry);
    proof {
        assert(defs@ == pre.push(tv));
        assert forall|k: int| 0 <= k < defs@.len() implies defs.deep_view()[k] == dv.push(
            (nv, pv),
        )[k] by {
            if k < pre.len() {
                assert(defs@[k] == pre[k]);
                assert(dv[k] == pre[k].deep_view());
            }
        }
        assert(defs.deep_view() =~= dv.push((nv, pv)));
        assert(dv.take(dv.len() as int) + seq![(nv, pv)] =~= dv.push((nv, pv)));
    }
}

/// Extracts the pair of a `Parameter` node; anything else gives `None`.
pub fn ast_to_parameter(ast: Ast) -> (r: Option<(String, String)>)
    ensures
        match r {
            Some(p) => ast_item_view(ast) == AstView::Parameter(p.0@, p.1@),
            None => !(ast_item_view(ast) is Parameter),
        },
{
    match ast {
        Ast::Parameter(name, typename) => Some((name, typename)),
        _ => None,
    }
}

/// Splitting a dependency walk after its last step: walking `xs` and then
/// `y` is walking `xs.push(y)`.
proof fn lemma_visit_deps_snoc(
    defs: DefsView,
    st: AnalysisState,
    xs: Seq<Seq<char>>,
    y: Seq<char>,
    fuel: nat,
)
    ensures
        spec_visit_deps(defs, st, xs.push(y), fuel) == (match spec_visit_deps(defs, st, xs, fuel) {
            Some(m) => spec_visit(defs, m, y, fuel),
            None => None,
        }),
    decreases xs.len(),
{
    if xs.len() == 0 {
        assert(xs.push(y).len() == 1);
        assert(xs.push(y)[0] == y);
        assert(xs.push(y).skip(1) =~= xs);
        assert(spec_visit_deps(defs, st, xs, fuel) == Some(st));
        match spec_visit(defs, st, y, fuel) {
            None => {},
            Some(m) => {
                assert(spec_visit_deps(defs, m, xs, fuel) == Some(m));
            },
        }
    } else {
        assert(xs.push(y)[0] == xs[0]);
        match spec_visit(defs, st, xs[0], fuel) {
            None => {},
            Some(m) => {
                assert(xs.push(y).skip(1) =~= xs.skip(1).push(y));
                lemma_visit_deps_snoc(defs, m, xs.skip(1), y, fuel);
            },
        }
    }
}

/// Collects the `(field, type)` pairs of the `Parameter` nodes of a list, in
/// order, dropping anything else.
pub fn build_parameters(ast: Vec<Ast>) -> (r: Vec<(String, String)>)
    ensures
        r.deep_view() == spec_params_of(ast@.map_values(|a: Ast| ast_item_view(a))),
{
    let ghost m = ast@.map_values(|a: Ast| ast_item_view(a));
    let mut rest = ast;
    let mut r: Vec<(String, String)> = Vec::new();
    while rest.len() > 0
        invariant
            spec_params_of(m) == r.deep_view() + spec_params_of(
                rest@.map_values(|a: Ast| ast_item_view(a)),
            ),
        decreases rest@.len(),
    {
        let ghost cur = rest@.map_values(|a: Ast| ast_item_view(a));
        let ghost rd = r.deep_view();
        let node = rest.remove(0);
        proof {
            assert(cur[0] == ast_item_view(node));
            assert(rest@.map_values(|a: Ast| ast_item_view(a)) =~= cur.skip(1));
        }
        match ast_to_parameter(node) {
            Some(p) => {
                let ghost x = (p.0@, p.1@);
                r.push(p);
                proof {
                    assert(r.deep_view() =~= rd.push(x));
                    assert(spec_params_of(cur) == seq![x] + spec_params_of(cur.skip(1)));
                    assert(rd + (seq![x] + spec_params_of(cur.skip(1))) =~= rd.push(x)
                        + spec_params_of(cur.skip(1)));
                }
            },
            None => {
                proof {
                    assert(spec_params_of(cur) == spec_params_of(cur.skip(1)));
                }
            },
        }
    }
    proof {
        assert(rest@.map_values(|a: Ast| ast_item_view(a)) =~= Seq::<AstView>::empty());
        assert(r.deep_view() + Seq::<(Seq<char>, Seq<char>)>::empty() =~= r.deep_view());
    }
    r
}

/// Value returned by [`Semantic::analyze`] if any unexpected tokens were
/// found: all of them, in order of appearance.
pub type UnexpectedTokens = Vec<Token>;

/// The semantic analyzer's result: the definition table, the emission order,
/// and the names swept into a dependency cycle.
#[derive(Debug)]
pub struct Semantic {
    /// All the type definitions: name and parameter list, in insertion
    /// order, later definitions of a name overwriting earlier ones in place.
    pub definitions: Vec<(String, Vec<(String, String)>)>,
    /// The order in which to write the definitions.
    pub order: Vec<String>,
    /// If any cyclic dependency is found, all the names involved are stored
    /// here, without duplicates, so they can be handled accordingly.
    pub cycles: Vec<String>,
}

/// The walk's working state: the table it walks, and the three collections
/// whose mathematical counterpart is [`AnalysisState`].
struct SemanticBuilder {
    definitions: Vec<(String, Vec<(String, String)>)>,
    order: Vec<String>,
    visited: Vec<String>,
    cycles: Vec<String>,
}

impl SemanticBuilder {
    spec fn defs_view(&self) -> DefsView {
        self.definitions.deep_view()
    }

    spec fn st(&self) -> AnalysisState {
        AnalysisState {
            order: self.order.deep_view(),
            visited: self.visited.deep_view().to_set(),
            cycles: self.cycles.deep_view().to_set(),
        }
    }

    spec fn bwf(&self) -> bool {
        &&& self.visited.deep_view().no_duplicates()
        &&& self.cycles.deep_view().no_duplicates()
        &&& st_inv(self.defs_view(), self.st())
        &&& visited_defined(self.defs_view(), self.st())
    }

    /// One step of the dependency walk, exactly as `spec_visit` describes it.
    fn visit(&mut self, node: &String)
        requires
            old(self).bwf(),
            names_set(old(self).defs_view()).contains(node@),
        ensures
            final(self).bwf(),
            final(self).definitions == old(self).definitions,
            old(self).st().visited.subset_of(final(self).st().visited),
            forall|fuel: nat|
                fuel >= rank_of(old(self).defs_view(), old(self).st().visited) + 1 ==> (
                #[trigger] spec_visit(old(self).defs_view(), old(self).st(), node@, fuel))
                    == Some(final(self).st()),
        decreases rank_of(old(self).defs_view(), old(self).st().visited),
    {
        let ghost defs = self.defs_view();
        let ghost st0 = self.st();
        let ghost r0 = rank_of(defs, st0.visited);
        if contains_name(&self.order, node) {
            proof {
                assert(st0.order.contains(node@));
                assert forall|fuel: nat| fuel >= r0 + 1 implies (#[trigger] spec_visit(
                    defs,
                    st0,
                    node@,
                    fuel,
                )) == Some(st0) by {}
            }
            return ;
        }
        if contains_name(&self.visited, node) {
            proof {
                assert(st0.visited.contains(node@));
            }
            add_all_missing(&mut self.cycles, &self.visited);
            proof {
                let st1 = AnalysisState {
                    order: st0.order,
                    visited: st0.visited,
                    cycles: st0.cycles.union(st0.visited),
                };
                assert(self.st() == st1);
                assert forall|fuel: nat| fuel >= r0 + 1 implies (#[trigger] spec_visit(
                    defs,
                    st0,
                    node@,
                    fuel,
                )) == Some(st1) by {}
                lemma_visit_ok(defs, st0, node@, r0 + 1);
            }
            return ;
        }
        let ghost visited0 = self.visited.deep_view();
        self.visited.push(node.clone());
        let ghost st1 = self.st();
        proof {
            assert(self.visited.deep_view() =~= visited0.push(node@));
            lemma_to_set_push(visited0, node@);
            assert(st1 == AnalysisState {
                order: st0.order,
                visited: st0.visited.insert(node@),
                cycles: st0.cycles,
            });
            assert forall|a: int, b: int|
                0 <= a < b < self.visited.deep_view().len() implies self.visited.deep_view()[a]
                != self.visited.deep_view()[b] by {
                if b == visited0.len() {
                    assert(visited0[a] == self.visited.deep_view()[a]);
                    assert(visited0.contains(visited0[a]));
                }
            }
            lemma_rank_insert(defs, st0.visited, node@);
        }
        let found = lookup_definition(&self.definitions, node);
        match found {
            Some(ps) => {
                let ghost depsv = dep_names(ps.deep_view());
                proof {
                    assert(depsv.take(0) =~= Seq::<Seq<char>>::empty());
                }
                let mut j: usize = 0;
                while j < ps.len()
                    invariant
                        j <= ps@.len(),
                        self.bwf(),
                        defs == self.defs_view(),
                        self.definitions == old(self).definitions,
                        lookup(defs, node@) == Some(ps.deep_view()),
                        depsv == dep_names(ps.deep_view()),
                        st1.visited.subset_of(self.st().visited),
                        rank_of(defs, st1.visited) + 1 == r0,
                        rank_of(defs, st1.visited) < rank_of(
                            old(self).defs_view(),
                            old(self).st().visited,
                        ),
                        forall|fuel: nat|
                            fuel >= rank_of(defs, st1.visited) + 1 ==> (#[trigger] spec_visit_deps(
                                defs,
                                st1,
                                depsv.take(j as int),
                                fuel,
                            )) == Some(self.st()),
                    decreases ps@.len() - j,
                {
                    proof {
                        lemma_lookup_in_names(defs, node@);
                        assert(lookup(defs, node@)->Some_0 == ps.deep_view());
                        assert(dep_names(lookup(defs, node@)->Some_0)[j as int] == depsv[j as int]);
                        assert(names_set(defs).contains(depsv[j as int]));
                    }
                    let ghost cur = self.st();
                    proof {
                        lemma_rank_mono(defs, st1.visited, cur.visited);
                    }
                    self.visit(&ps[j].1);
                    proof {
                        assert(depsv.take(j as int + 1) =~= depsv.take(j as int).push(
                            depsv[j as int],
                        ));
                        assert forall|fuel: nat|
                            fuel >= rank_of(defs, st1.visited) + 1 implies (#[trigger] spec_visit_deps(
                            defs,
                            st1,
                            depsv.take(j as int + 1),
                            fuel,
                        )) == Some(self.st()) by {
                            lemma_visit_deps_snoc(defs, st1, depsv.take(j as int), depsv[j as int], fuel);
                        }
                    }
                    j = j + 1;
                }
                proof {
                    assert(depsv.take(depsv.len() as int) =~= depsv);
                }
            },
            None => {},
        }
        let ghost st2 = self.st();
        proof {
            if lookup(defs, node@) is Some {
                let dn = dep_names(lookup(defs, node@)->Some_0);
                assert forall|fuel: nat|
                    fuel >= rank_of(defs, st1.visited) + 1 implies (#[trigger] spec_visit_deps(
                    defs,
                    st1,
                    dn,
                    fuel,
                )) == Some(st2) by {
                    assert(spec_visit_deps(defs, st1, dn.take(dn.len() as int), fuel) == Some(
                        st2,
                    ));
                }
            }
        }
        if !contains_name(&self.cycles, node) {
            proof {
                assert(!st2.cycles.contains(node@));
                assert(st1.visited.contains(node@));
                assert(st2.visited.contains(node@));
                assert(self.visited.deep_view().contains(node@));
            }
            let ghost order2 = self.order.deep_view();
            self.order.push(node.clone());
            remove_name(&mut self.visited, node);
            proof {
                assert(self.order.deep_view() =~= order2.push(node@));
                assert(self.st() == AnalysisState {
                    order: st2.order.push(node@),
                    visited: st2.visited.remove(node@),
                    cycles: st2.cycles,
                });
            }
        } else {
            proof {
                assert(st2.cycles.contains(node@));
            }
        }
        proof {
            assert forall|fuel: nat| fuel >= r0 + 1 implies (#[trigger] spec_visit(
                defs,
                st0,
                node@,
                fuel,
            )) == Some(self.st()) by {
                assert(fuel >= 1);
                assert((fuel - 1) as nat >= rank_of(defs, st1.visited) + 1);
                if lookup(defs, node@) is Some {
                    let dn = dep_names(lookup(defs, node@)->Some_0);
                    assert(spec_visit_deps(defs, st1, dn, (fuel - 1) as nat) == Some(st2));
                }
            }
            lemma_visit_ok(defs, st0, node@, r0 + 1);
        }
    }

    /// Runs the walk from every key of the table, in table order, and wraps
    /// up the result.
    fn build(definitions: Vec<(String, Vec<(String, String)>)>) -> (r: Result<
        Semantic,
        UnexpectedTokens,
    >)
        ensures
            r is Ok,
            ({
                let s = r->Ok_0;
                &&& s.definitions == definitions
                &&& spec_analysis(definitions.deep_view()) is Some
                &&& spec_analysis(definitions.deep_view())->Some_0.order == s.order.deep_view()
                &&& spec_analysis(definitions.deep_view())->Some_0.cycles
                    == s.cycles.deep_view().to_set()
                &&& s.cycles.deep_view().no_duplicates()
            }),
    {
        let ghost defs = definitions.deep_view();
        let ghost dvec = definitions;
        let mut sb = SemanticBuilder {
            definitions,
            order: Vec::new(),
            visited: Vec::new(),
            cycles: Vec::new(),
        };
        proof {
            assert(sb.order.deep_view() =~= Seq::<Seq<char>>::empty());
            assert(sb.visited.deep_view() =~= Seq::<Seq<char>>::empty());
            assert(sb.cycles.deep_view() =~= Seq::<Seq<char>>::empty());
            assert(sb.visited.deep_view().to_set() =~= Set::<Seq<char>>::empty());
            assert(sb.cycles.deep_view().to_set() =~= Set::<Seq<char>>::empty());
            assert(sb.st() == init_state());
            assert(sb.bwf());
            assert(keys_of(defs).skip(0) =~= keys_of(defs));
        }
        let ghost fuel = analysis_fuel(defs);
        let mut i: usize = 0;
        while i < sb.definitions.len()
            invariant
                i <= sb.definitions@.len(),
                sb.bwf(),
                sb.definitions == dvec,
                sb.defs_view() == defs,
                fuel == analysis_fuel(defs),
                spec_visit_roots(defs, init_state(), keys_of(defs), fuel) == spec_visit_roots(
                    defs,
                    sb.st(),
                    keys_of(defs).skip(i as int),
                    fuel,
                ),
            decreases sb.definitions@.len() - i,
        {
            let key = sb.definitions[i].0.clone();
            proof {
                lemma_keys_in_names(defs);
                lemma_names_set_finite(defs);
                assert(keys_of(defs)[i as int] == defs[i as int].0);
                assert(defs[i as int].0 == sb.definitions@[i as int].0@);
                assert(key@ == keys_of(defs)[i as int]);
                assert(names_set(defs).contains(key@));
                let d = names_set(defs).difference(sb.st().visited);
                assert(d.subset_of(names_set(defs)));
                lemma_len_subset(d, names_set(defs));
                assert(rank_of(defs, sb.st().visited) + 1 <= fuel);
            }
            let ghost pre = sb.st();
            sb.visit(&key);
            proof {
                assert(spec_visit(defs, pre, key@, fuel) == Some(sb.st()));
                assert(keys_of(defs).skip(i as int)[0] == keys_of(defs)[i as int]);
                assert(keys_of(defs).skip(i as int).skip(1) =~= keys_of(defs).skip(i as int + 1));
            }
            i = i + 1;
        }
        proof {
            assert(keys_of(defs).len() == defs.len());
            assert(defs.len() == sb.definitions@.len());
            assert(keys_of(defs).skip(keys_of(defs).len() as int).len() == 0);
            assert(spec_visit_roots(
                defs,
                sb.st(),
                keys_of(defs).skip(keys_of(defs).len() as int),
                fuel,
            ) == Some(sb.st()));
            assert(spec_analysis(defs) == Some(sb.st()));
        }
        Ok(Semantic { definitions: sb.definitions, order: sb.order, cycles: sb.cycles })
    }
}

impl Semantic {
    /// Builds the semantic analyzer and analyzes the parsed program.
    ///
    /// If the parse recorded any unexpected token, analysis is refused and
    /// every one of them is returned, in order of appearance. Otherwise the
    /// result carries the definition table, the emission order, and the
    /// names swept into a dependency cycle, exactly as `spec_analysis`
    /// determines them from the table.
    pub fn analyze(ast: Parser) -> (r: Result<Semantic, UnexpectedTokens>)
        requires
            ast.wf(),
        ensures
            ({
                let nodes = spec_parse_program(ast@);
                match r {
                    Ok(s) => program_errors(nodes).len() == 0 && s.definitions.deep_view()
                        == program_table(nodes) && spec_analysis(program_table(nodes)) is Some
                        && spec_analysis(program_table(nodes))->Some_0.order
                        == s.order.deep_view() && spec_analysis(program_table(nodes))->Some_0.cycles
                        == s.cycles.deep_view().to_set() && s.cycles.deep_view().no_duplicates(),
                    Err(e) => program_errors(nodes).len() > 0 && e@.map_values(|t: Token| t@)
                        == program_errors(nodes),
                }
            }),
    {
        let ghost nodes0 = spec_parse_program(ast@);
        let mut parser = ast;
        let mut definitions: Vec<(String, Vec<(String, String)>)> = Vec::new();
        let mut errors: Vec<Token> = Vec::new();
        proof {
            assert(definitions.deep_view() =~= Seq::<(Seq<char>, ParamsView)>::empty());
            assert(errors@.map_values(|t: Token| t@) =~= Seq::<TokenView>::empty());
        }
        loop
            invariant_except_break
                parser.wf(),
                spec_collect(nodes0, Seq::empty(), Seq::empty()) == spec_collect(
                    spec_parse_program(parser@),
                    definitions.deep_view(),
                    errors@.map_values(|t: Token| t@),
                ),
            ensures
                spec_collect(nodes0, Seq::empty(), Seq::empty()) == (
                    definitions.deep_view(),
                    errors@.map_values(|t: Token| t@),
                ),
            decreases parser@.len(),
        {
            let ghost pv = parser@;
            let ghost rem = spec_parse_program(parser@);
            let ghost dv = definitions.deep_view();
            let ghost ev = errors@.map_values(|t: Token| t@);
            match parser.next() {
                None => {
                    break;
                },
                Some(node) => {
                    proof {
                        lemma_parse_program_shape(pv);
                        assert(rem[0] == node@);
                        assert(rem.skip(1) =~= spec_parse_program(parser@));
                    }
                    match node {
                        Ast::TypeDefinition(name, parameters) => {
                            let ghost nv = name@;
                            let ghost mpv = parameters@.map_values(|a: Ast| ast_item_view(a));
                            let ps = build_parameters(parameters);
                            insert_definition(&mut definitions, name, ps);
                            proof {
                                assert(node@ == AstView::TypeDefinition(nv, mpv));
                                assert(definitions.deep_view() == table_insert(
                                    dv,
                                    nv,
                                    spec_params_of(mpv),
                                ));
                                assert(spec_collect(rem, dv, ev) == spec_collect(
                                    rem.skip(1),
                                    table_insert(dv, nv, spec_params_of(mpv)),
                                    ev,
                                ));
                            }
                        },
                        Ast::Unexpected(token) => {
                            let ghost tv = token@;
                            errors.push(token);
                            proof {
                                assert(node@ == AstView::Unexpected(tv));
                                assert(errors@.map_values(|t: Token| t@) =~= ev.push(tv));
                                assert(spec_collect(rem, dv, ev) == spec_collect(
                                    rem.skip(1),
                                    dv,
                                    ev.push(tv),
                                ));
                            }
                        },
                        Ast::Parameter(_, _) => {
                            proof {
                                assert(false);
                            }
                        },
                        Ast::Empty => {
                            proof {
                                assert(false);
                            }
                        },
                    }
                },
            }
        }
        match errors.len() {
            0 => {
                proof {
                    assert(errors@.map_values(|t: Token| t@) =~= Seq::<TokenView>::empty());
                    assert(program_errors(nodes0).len() == 0);
                    assert(definitions.deep_view() == program_table(nodes0));
                }
                SemanticBuilder::build(definitions)
            },
            _ => Err(errors),
        }
    }
}

} // verus!

