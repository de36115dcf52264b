//! The dependency graph over every unit of the source tree and its execution
//! order.

use vstd::prelude::*;
use indexmap::IndexMap;
use crate::change_block::string_views;
use crate::identity::{DatabaseObject, SourceError};
use crate::text::{chars_equal, chars_of, split_on, split_on_chars, views};
use crate::topsort::{
    as_ints, has_edge, is_index_order, is_node_order, lemma_node_order_covers, lex_le, order_indices,
};

verus! {

#[verifier::external_type_specification]
#[verifier::external_body]
#[verifier::reject_recursive_types(K)]
#[verifier::reject_recursive_types(V)]
#[verifier::reject_recursive_types(S)]
pub struct ExIndexMap<K, V, S>(IndexMap<K, V, S>);

/// The key-value pairs of a registry, in insertion order.
pub uninterp spec fn registry_entries(m: IndexMap<String, usize>) -> Seq<(Seq<char>, usize)>;

/// Relies on `indexmap::IndexMap::new`: an empty map.
#[verifier::external_body]
fn registry_new() -> (m: IndexMap<String, usize>)
    ensures
        registry_entries(m) == Seq::<(Seq<char>, usize)>::empty(),
{
    IndexMap::new()
}

/// Relies on `indexmap::IndexMap::insert`: an equal key keeps its place and
/// its old value is returned; a new key goes last and `None` is returned.
#[verifier::external_body]
fn registry_insert(m: &mut IndexMap<String, usize>, key: String, value: usize) -> (r: Option<usize>)
    ensures
        r is Some <==> exists|j: int|
            0 <= j < registry_entries(*old(m)).len() && registry_entries(*old(m))[j].0 == key@,
        r is None ==> registry_entries(*final(m)) == registry_entries(*old(m)).push((key@, value)),
{
    m.insert(key, value)
}

/// A declared dependency that names no other unit of the tree.
pub struct UnresolvedDependency {
    pub object: String,
    pub dependency: String,
}

/// Every unit in registration order, the order to apply them in (as indices
/// into `objects`), and the dependencies that resolved to nothing.
pub struct ExecutionPlan {
    pub objects: Vec<DatabaseObject>,
    pub order: Vec<usize>,
    pub warnings: Vec<UnresolvedDependency>,
}

pub open spec fn object_keys(objs: Seq<DatabaseObject>) -> Seq<Seq<char>> {
    objs.map_values(|o: DatabaseObject| o.change_name@)
}

pub open spec fn object_deps(objs: Seq<DatabaseObject>) -> Seq<Seq<Seq<char>>> {
    objs.map_values(|o: DatabaseObject| string_views(o.dependencies@))
}

/// `token` is one of the dot-separated components of `key`.
pub open spec fn names_segment(key: Seq<char>, token: Seq<char>) -> bool {
    split_on(key, '.').contains(token)
}

/// Unit `j` must be applied before unit `i`: a dependency of `i` names a
/// component of `j`'s key.
pub open spec fn must_precede(keys: Seq<Seq<char>>, deps: Seq<Seq<Seq<char>>>, j: int, i: int) -> bool {
    &&& 0 <= j < keys.len()
    &&& 0 <= i < keys.len()
    &&& j != i
    &&& exists|d: Seq<char>| deps[i].contains(d) && names_segment(keys[j], d)
}

/// `order` lists every unit once, each after all units it must follow.
pub open spec fn is_plan_order(order: Seq<usize>, keys: Seq<Seq<char>>, deps: Seq<Seq<Seq<char>>>) -> bool {
    &&& is_node_order(order, keys.len())
    &&& forall|p: int, q: int|
        0 <= p < order.len() && 0 <= q < order.len() && must_precede(
            keys,
            deps,
            order[p] as int,
            order[q] as int,
        ) ==> p < q
}

/// Dependency `d` of unit `i` names no other unit.
pub open spec fn unresolved(keys: Seq<Seq<char>>, deps: Seq<Seq<Seq<char>>>, i: int, d: Seq<char>) -> bool {
    &&& deps[i].contains(d)
    &&& forall|j: int| 0 <= j < keys.len() && j != i ==> !names_segment(keys[j], d)
}

/// `plan` keeps the units, orders them (among all admissible orders, the one
/// that puts earlier-registered units first wherever it may), and reports
/// exactly the unresolved dependencies.
pub open spec fn plan_fits(plan: ExecutionPlan, objects: Seq<DatabaseObject>) -> bool {
    let keys = object_keys(objects);
    let deps = object_deps(objects);
    &&& plan.objects@ == objects
    &&& is_plan_order(plan.order@, keys, deps)
    &&& forall|o: Seq<usize>| is_plan_order(o, keys, deps) ==> lex_le(as_ints(plan.order@), as_ints(o))
    &&& warnings_exact(warning_views(plan.warnings@), keys, deps, keys.len() as int)
}

pub open spec fn warning_views(ws: Seq<UnresolvedDependency>) -> Seq<(Seq<char>, Seq<char>)> {
    ws.map_values(|w: UnresolvedDependency| (w.object@, w.dependency@))
}

/// `(object, dependency)` is an unresolved dependency of one of the first
/// `upto` units.
pub open spec fn is_unresolved_of(
    keys: Seq<Seq<char>>,
    deps: Seq<Seq<Seq<char>>>,
    upto: int,
    w: (Seq<char>, Seq<char>),
) -> bool {
    exists|i: int| 0 <= i < upto && keys[i] == w.0 && unresolved(keys, deps, i, w.1)
}

/// `wv` lists unresolved dependencies of the first `upto` units, and all of them.
pub open spec fn warnings_exact(
    wv: Seq<(Seq<char>, Seq<char>)>,
    keys: Seq<Seq<char>>,
    deps: Seq<Seq<Seq<char>>>,
    upto: int,
) -> bool {
    &&& forall|w: int| 0 <= w < wv.len() ==> is_unresolved_of(keys, deps, upto, #[trigger] wv[w])
    &&& forall|i: int, d: Seq<char>|
        0 <= i < upto && #[trigger] unresolved(keys, deps, i, d) ==> wv.contains((keys[i], d))
}

/// `path` runs through units, each of which must precede the next, back to
/// where it started.
pub open spec fn precedence_cycle(keys: Seq<Seq<char>>, deps: Seq<Seq<Seq<char>>>, path: Seq<int>) -> bool {
    &&& path.len() >= 2
    &&& path[0] == path[path.len() - 1]
    &&& forall|i: int| 0 <= i < path.len() - 1 ==> must_precede(keys, deps, path[i], #[trigger] path[i + 1])
}

spec fn place_of(order: Seq<usize>, u: int) -> int {
    choose|p: int| 0 <= p < order.len() && order[p] as int == u
}

proof fn lemma_precedence_rises(
    keys: Seq<Seq<char>>,
    deps: Seq<Seq<Seq<char>>>,
    path: Seq<int>,
    order: Seq<usize>,
    t: int,
)
    requires
        precedence_cycle(keys, deps, path),
        is_plan_order(order, keys, deps),
        keys.len() <= usize::MAX,
        1 <= t < path.len(),
    ensures
        0 <= place_of(order, path[0]) < order.len() && order[place_of(order, path[0])] as int == path[0],
        0 <= place_of(order, path[t]) < order.len() && order[place_of(order, path[t])] as int == path[t],
        place_of(order, path[0]) < place_of(order, path[t]),
    decreases t,
{
    let a = path[t - 1];
    let b = path[t];
    assert(must_precede(keys, deps, path[t - 1], path[t - 1 + 1]));
    lemma_node_order_covers(order, keys.len(), a as usize);
    lemma_node_order_covers(order, keys.len(), b as usize);
    let p = place_of(order, a);
    let q = place_of(order, b);
    assert(must_precede(keys, deps, order[p] as int, order[q] as int));
    if t > 1 {
        lemma_precedence_rises(keys, deps, path, order, t - 1);
    }
}

/// Units whose dependencies run in a circle admit no execution order.
pub proof fn lemma_precedence_cycle_has_no_plan(
    keys: Seq<Seq<char>>,
    deps: Seq<Seq<Seq<char>>>,
    path: Seq<int>,
    order: Seq<usize>,
)
    requires
        precedence_cycle(keys, deps, path),
        keys.len() <= usize::MAX,
    ensures
        !is_plan_order(order, keys, deps),
{
    if is_plan_order(order, keys, deps) {
        lemma_precedence_rises(keys, deps, path, order, path.len() - 1);
    }
}

fn contains_chars(v: &Vec<Vec<char>>, x: &Vec<char>) -> (r: bool)
    ensures
        r == views(v@).contains(x@),
{
    let mut i: usize = 0;
    while i < v.len()
        invariant
            i <= v@.len(),
            forall|k: int| 0 <= k < i ==> v@[k]@ != x@,
        decreases v@.len() - i,
    {
        if chars_equal(&v[i], x) {
            proof {
                assert(views(v@)[i as int] == x@);
            }
            return true;
        }
        i = i + 1;
    }
    proof {
        if views(v@).contains(x@) {
            let k = choose|k: int| 0 <= k < views(v@).len() && views(v@)[k] == x@;
            assert(v@[k]@ == x@);
        }
    }
    false
}

proof fn lemma_edges_grow(edges: Seq<(usize, usize)>, x: (usize, usize), a: usize, b: usize)
    requires
        has_edge(edges, a, b),
    ensures
        has_edge(edges.push(x), a, b),
{
    let k = choose|k: int| 0 <= k < edges.len() && edges[k] == (a, b);
    assert(edges.push(x)[k] == (a, b));
}

/// Registers every unit under its qualified key, resolves the declared
/// dependencies and orders the units.
pub fn determine_execution_order(objects: Vec<DatabaseObject>) -> (r: Result<ExecutionPlan, SourceError>)
    ensures
        !object_keys(objects@).no_duplicates() <==> r matches Err(
            SourceError::DuplicateDefinition { .. },
        ),
        r matches Err(SourceError::DuplicateDefinition { key }) ==> exists|i: int, j: int|
            0 <= i < j < objects@.len() && object_keys(objects@)[i] == key@ && object_keys(objects@)[j]
                == key@,
        object_keys(objects@).no_duplicates() ==> (r matches Err(SourceError::CycleDetected) <==> !exists|
            o: Seq<usize>,
        | is_plan_order(o, object_keys(objects@), object_deps(objects@))),
        r is Err ==> (r matches Err(SourceError::DuplicateDefinition { .. }) || r matches Err(
            SourceError::CycleDetected,
        )),
        r matches Ok(plan) ==> plan_fits(plan, objects@),
        object_keys(objects@).no_duplicates() && (exists|path: Seq<int>|
            precedence_cycle(object_keys(objects@), object_deps(objects@), path)) ==> r matches Err(
            SourceError::CycleDetected,
        ),
{
    let ghost keys = object_keys(objects@);
    let ghost deps = object_deps(objects@);
    let n = objects.len();
    let mut registry = registry_new();
    for i in 0..n
        invariant
            n == objects@.len(),
            keys == object_keys(objects@),
            registry_entries(registry).len() == i,
            forall|k: int| 0 <= k < i ==> #[trigger] registry_entries(registry)[k].0 == keys[k],
            forall|a: int, b: int| 0 <= a < b < i ==> keys[a] != keys[b],
    {
        let key = objects[i].change_name.clone();
        let ghost before = registry_entries(registry);
        match registry_insert(&mut registry, key, i) {
            Some(_) => {
                proof {
                    let j = choose|j: int| 0 <= j < before.len() && before[j].0 == key@;
                    assert(keys[j] == keys[i as int]);
                }
                return Err(SourceError::DuplicateDefinition { key: objects[i].change_name.clone() });
            },
            None => {
                proof {
                    assert forall|k: int| 0 <= k < i + 1 implies #[trigger] registry_entries(registry)[k].0
                        == keys[k] by {
                        if k < i {
                            assert(registry_entries(registry)[k] == before[k]);
                        }
                    }
                    assert forall|a: int, b: int| 0 <= a < b < i + 1 implies keys[a] != keys[b] by {
                        if b == i && keys[a] == keys[b] {
                            assert(before[a].0 == key@);
                        }
                    }
                }
            },
        }
    }
    proof {
        assert(keys.no_duplicates());
    }
    let mut segments: Vec<Vec<Vec<char>>> = Vec::new();
    for i in 0..n
        invariant
            n == objects@.len(),
            keys == object_keys(objects@),
            segments@.len() == i,
            forall|k: int| 0 <= k < i ==> views(#[trigger] segments@[k]@) == split_on(keys[k], '.'),
    {
        let kc = chars_of(objects[i].change_name.as_str());
        segments.push(split_on_chars(&kc, '.'));
    }
    let mut edges: Vec<(usize, usize)> = Vec::new();
    let mut warnings: Vec<UnresolvedDependency> = Vec::new();
    for i in 0..n
        invariant
            n == objects@.len(),
            keys == object_keys(objects@),
            deps == object_deps(objects@),
            segments@.len() == n,
            forall|k: int| 0 <= k < n ==> views(#[trigger] segments@[k]@) == split_on(keys[k], '.'),
            forall|k: int| 0 <= k < edges@.len() ==> #[trigger] must_precede(keys, deps, edges@[k].0 as int, edges@[k].1 as int),
            forall|k: int| 0 <= k < edges@.len() ==> edges@[k].0 < n && edges@[k].1 < n,
            forall|j: int, a: int| 0 <= a < i && must_precede(keys, deps, j, a) ==> has_edge(edges@, j as usize, a as usize),
            warnings_exact(warning_views(warnings@), keys, deps, i as int),
    {
        let dl = &objects[i].dependencies;
        for t in 0..dl.len()
            invariant
                n == objects@.len(),
                keys == object_keys(objects@),
                deps == object_deps(objects@),
                i < n,
                dl@ == objects@[i as int].dependencies@,
                segments@.len() == n,
                forall|k: int| 0 <= k < n ==> views(#[trigger] segments@[k]@) == split_on(keys[k], '.'),
                forall|k: int| 0 <= k < edges@.len() ==> #[trigger] must_precede(keys, deps, edges@[k].0 as int, edges@[k].1 as int),
                forall|k: int| 0 <= k < edges@.len() ==> edges@[k].0 < n && edges@[k].1 < n,
                forall|j: int, a: int| 0 <= a < i && must_precede(keys, deps, j, a) ==> has_edge(edges@, j as usize, a as usize),
                forall|j: int, s: int| 0 <= s < t && 0 <= j < n && j != i && names_segment(keys[j], dl@[s]@)
                    ==> has_edge(edges@, j as usize, i as usize),
                forall|w: int| 0 <= w < warning_views(warnings@).len() ==> is_unresolved_of(keys, deps, i + 1, #[trigger] warning_views(warnings@)[w]),
                forall|a: int, d: Seq<char>| 0 <= a < i && #[trigger] unresolved(keys, deps, a, d) ==> warning_views(warnings@).contains((keys[a], d)),
                forall|s: int| 0 <= s < t && unresolved(keys, deps, i as int, #[trigger] dl@[s]@) ==> warning_views(warnings@).contains((keys[i as int], dl@[s]@)),
        {
            let dc = chars_of(dl[t].as_str());
            let ghost d = dl@[t as int]@;
            proof {
                assert(deps[i as int] == string_views(dl@));
                assert(deps[i as int][t as int] == d);
                assert(deps[i as int].contains(d));
            }
            let mut found = false;
            for j in 0..n
                invariant
                    n == objects@.len(),
                    keys == object_keys(objects@),
                    deps == object_deps(objects@),
                    i < n,
                    dc@ == d,
                    deps[i as int].contains(d),
                    segments@.len() == n,
                    forall|k: int| 0 <= k < n ==> views(#[trigger] segments@[k]@) == split_on(keys[k], '.'),
                    forall|k: int| 0 <= k < edges@.len() ==> #[trigger] must_precede(keys, deps, edges@[k].0 as int, edges@[k].1 as int),
                    forall|k: int| 0 <= k < edges@.len() ==> edges@[k].0 < n && edges@[k].1 < n,
                    forall|j2: int, a: int| 0 <= a < i && must_precede(keys, deps, j2, a) ==> has_edge(edges@, j2 as usize, a as usize),
                    forall|j2: int, s: int| 0 <= s < t && 0 <= j2 < n && j2 != i && names_segment(keys[j2], dl@[s]@)
                        ==> has_edge(edges@, j2 as usize, i as usize),
                    forall|j2: int| 0 <= j2 < j && j2 != i && names_segment(keys[j2], d) ==> has_edge(edges@, j2 as usize, i as usize),
                    found <==> exists|j2: int| 0 <= j2 < j && j2 != i && names_segment(keys[j2], d),
            {
                if j != i && contains_chars(&segments[j], &dc) {
                    let ghost e0 = edges@;
                    edges.push((j, i));
                    proof {
                        assert(must_precede(keys, deps, j as int, i as int));
                        assert(edges@[edges@.len() - 1] == (j, i));
                        assert forall|j2: int, a: int| 0 <= a < i && must_precede(keys, deps, j2, a)
                            implies has_edge(edges@, j2 as usize, a as usize) by {
                            lemma_edges_grow(e0, (j, i), j2 as usize, a as usize);
                        }
                        assert forall|j2: int, s: int| 0 <= s < t && 0 <= j2 < n && j2 != i && names_segment(keys[j2], dl@[s]@)
                            implies has_edge(edges@, j2 as usize, i as usize) by {
                            lemma_edges_grow(e0, (j, i), j2 as usize, i);
                        }
                        assert forall|j2: int| 0 <= j2 < j + 1 && j2 != i && names_segment(keys[j2], d)
                            implies has_edge(edges@, j2 as usize, i as usize) by {
                            if j2 < j {
                                lemma_edges_grow(e0, (j, i), j2 as usize, i);
                            } else {
                                assert(edges@[e0.len() as int] == (j, i));
                            }
                        }
                    }
                    found = true;
                }
            }
            if !found {
                let ghost w0 = warning_views(warnings@);
                warnings.push(UnresolvedDependency {
                    object: objects[i].change_name.clone(),
                    dependency: dl[t].clone(),
                });
                proof {
                    let wv = warning_views(warnings@);
                    assert(wv =~= w0.push((keys[i as int], d)));
                    assert(unresolved(keys, deps, i as int, d));
                    assert forall|w: int| 0 <= w < wv.len() implies is_unresolved_of(keys, deps, i + 1, #[trigger] wv[w]) by {
                        if w < w0.len() {
                            assert(wv[w] == w0[w]);
                        } else {
                            assert(wv[w] == (keys[i as int], d));
                        }
                    }
                    assert forall|a: int, d2: Seq<char>| 0 <= a < i && #[trigger] unresolved(keys, deps, a, d2)
                        implies wv.contains((keys[a], d2)) by {
                        let w = choose|w: int| 0 <= w < w0.len() && w0[w] == (keys[a], d2);
                        assert(wv[w] == w0[w]);
                    }
                    assert forall|s: int| 0 <= s < t + 1 && unresolved(keys, deps, i as int, #[trigger] dl@[s]@)
                        implies wv.contains((keys[i as int], dl@[s]@)) by {
                        if s < t {
                            let w = choose|w: int| 0 <= w < w0.len() && w0[w] == (keys[i as int], dl@[s]@);
                            assert(wv[w] == w0[w]);
                        } else {
                            assert(wv[w0.len() as int] == (keys[i as int], d));
                        }
                    }
                }
            } else {
                proof {
                    assert forall|s: int| 0 <= s < t + 1 && unresolved(keys, deps, i as int, #[trigger] dl@[s]@)
                        implies warning_views(warnings@).contains((keys[i as int], dl@[s]@)) by {
                        if s == t {
                            let j2 = choose|j2: int| 0 <= j2 < n && j2 != i && names_segment(keys[j2], d);
                            assert(false);
                        }
                    }
                }
            }
        }
        proof {
            assert forall|j: int, a: int| 0 <= a < i + 1 && must_precede(keys, deps, j, a)
                implies has_edge(edges@, j as usize, a as usize) by {
                if a == i {
                    let d2 = choose|d2: Seq<char>| deps[a].contains(d2) && names_segment(keys[j], d2);
                    let s = choose|s: int| 0 <= s < deps[a].len() && deps[a][s] == d2;
                    assert(deps[a] == string_views(dl@));
                    assert(dl@[s]@ == d2);
                }
            }
            assert forall|a: int, d2: Seq<char>| 0 <= a < i + 1 && #[trigger] unresolved(keys, deps, a, d2)
                implies warning_views(warnings@).contains((keys[a], d2)) by {
                if a == i {
                    let s = choose|s: int| 0 <= s < deps[a].len() && deps[a][s] == d2;
                    assert(deps[a] == string_views(dl@));
                    assert(dl@[s]@ == d2);
                }
            }
        }
    }
    proof {
        assert forall|o: Seq<usize>| is_plan_order(o, keys, deps) <==> is_index_order(o, n as nat, edges@) by {
            if is_plan_order(o, keys, deps) {
                assert forall|k: int, p: int, q: int|
                    0 <= k < edges@.len() && 0 <= p < o.len() && 0 <= q < o.len() && o[p] == edges@[k].0
                        && o[q] == edges@[k].1 implies p < q by {
                    assert(must_precede(keys, deps, edges@[k].0 as int, edges@[k].1 as int));
                }
            }
            if is_index_order(o, n as nat, edges@) {
                assert forall|p: int, q: int|
                    0 <= p < o.len() && 0 <= q < o.len() && must_precede(keys, deps, o[p] as int, o[q] as int)
                        implies p < q by {
                    let k = choose|k: int| 0 <= k < edges@.len() && edges@[k] == (o[p], o[q]);
                }
            }
        }
    }
    proof {
        if exists|path: Seq<int>| precedence_cycle(keys, deps, path) {
            let path = choose|path: Seq<int>| precedence_cycle(keys, deps, path);
            assert forall|o: Seq<usize>| !is_plan_order(o, keys, deps) by {
                lemma_precedence_cycle_has_no_plan(keys, deps, path, o);
            }
        }
    }
    match order_indices(n, &edges) {
        Err(_) => {
            proof {
                assert forall|o: Seq<usize>| !is_plan_order(o, keys, deps) by {
                    assert(!is_index_order(o, n as nat, edges@));
                }
            }
            Err(SourceError::CycleDetected)
        },
        Ok(order) => {
            proof {
                assert(is_plan_order(order@, keys, deps));
            }
            Ok(ExecutionPlan { objects, order, warnings })
        },
    }
}

} // verus!
