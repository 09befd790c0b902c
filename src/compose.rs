//! The order in which an overlay and the overlays it uses are applied: each
//! used overlay, in the order of `uses` and with its own uses first, once,
//! then the overlay itself. A cycle of `uses` is an error.
use vstd::prelude::*;
use crate::glob::views;
use crate::mirror::{Node, StepModel, distinct_targets, holds_goal, lemma_last_applied_wins, node_at, run_spec, step_target};
use crate::paths::same_chars;

verus! {

/// Why no order of application exists.
#[derive(Clone, Copy, Debug, PartialEq, Eq, Structural)]
pub enum ComposeError {
    /// A name that the graph does not hold.
    NotFound,
    /// An overlay that uses itself, directly or through others.
    Cycle,
}

/// A graph of overlays: each name with the names that it uses.
pub open spec fn graph_view(g: Seq<(String, Vec<String>)>) -> Seq<(Seq<char>, Seq<Seq<char>>)> {
    g.map_values(|e: (String, Vec<String>)| (e.0@, views(e.1@)))
}

/// The names that `n` uses, from the last entry of the graph for `n`.
pub open spec fn uses_in(g: Seq<(Seq<char>, Seq<Seq<char>>)>, n: Seq<char>) -> Option<Seq<Seq<char>>>
    decreases g.len(),
{
    if g.len() == 0 {
        None
    } else if g.last().0 == n {
        Some(g.last().1)
    } else {
        uses_in(g.drop_last(), n)
    }
}

/// A depth-first visit of `n`: the names applied so far are `done`, the
/// names being visited are `path`. `n` comes after everything it uses.
pub open spec fn visit(
    g: Seq<(Seq<char>, Seq<Seq<char>>)>,
    n: Seq<char>,
    done: Seq<Seq<char>>,
    path: Seq<Seq<char>>,
    fuel: nat,
) -> Result<Seq<Seq<char>>, ComposeError>
    decreases fuel, 0nat,
{
    if done.contains(n) {
        Ok(done)
    } else if path.contains(n) {
        Err(ComposeError::Cycle)
    } else if uses_in(g, n) is None {
        Err(ComposeError::NotFound)
    } else if fuel == 0 {
        Err(ComposeError::Cycle)
    } else {
        match visit_all(g, uses_in(g, n).unwrap(), done, path.push(n), (fuel - 1) as nat) {
            Ok(d) => Ok(d.push(n)),
            Err(e) => Err(e),
        }
    }
}

/// Depth-first visits of the names `ns`, in order.
pub open spec fn visit_all(
    g: Seq<(Seq<char>, Seq<Seq<char>>)>,
    ns: Seq<Seq<char>>,
    done: Seq<Seq<char>>,
    path: Seq<Seq<char>>,
    fuel: nat,
) -> Result<Seq<Seq<char>>, ComposeError>
    decreases fuel, ns.len() + 1,
{
    if ns.len() == 0 {
        Ok(done)
    } else {
        match visit_all(g, ns.drop_last(), done, path, fuel) {
            Ok(d) => visit(g, ns.last(), d, path, fuel),
            Err(e) => Err(e),
        }
    }
}

/// Whether `v` holds `n`.
pub(crate) fn holds(v: &Vec<String>, n: &String) -> (r: bool)
    ensures
        r == views(v@).contains(n@),
{
    let mut i: usize = 0;
    while i < v.len()
        invariant
            i <= v@.len(),
            forall|j: int| 0 <= j < i ==> v@[j]@ != n@,
        decreases v@.len() - i,
    {
        if same_chars(v[i].as_str(), n.as_str()) {
            assert(views(v@)[i as int] == n@);
            return true;
        }
        i = i + 1;
    }
    assert forall|j: int| 0 <= j < views(v@).len() implies views(v@)[j] != n@ by {
        assert(views(v@)[j] == v@[j]@);
    }
    false
}

/// The index of the last entry of `g` for `n`.
fn find(g: &Vec<(String, Vec<String>)>, n: &String) -> (r: Option<usize>)
    ensures
        r is None <==> uses_in(graph_view(g@), n@) is None,
        r matches Some(i) ==> i < g@.len() && uses_in(graph_view(g@), n@) == Some(views(g@[i as int].1@)),
{
    let mut i: usize = g.len();
    assert(graph_view(g@).take(i as int) =~= graph_view(g@));
    while i > 0
        invariant
            i <= g@.len(),
            uses_in(graph_view(g@), n@) == uses_in(graph_view(g@).take(i as int), n@),
        decreases i,
    {
        let ghost t = graph_view(g@).take(i as int);
        assert(t.last() == graph_view(g@)[i - 1]);
        if same_chars(g[i - 1].0.as_str(), n.as_str()) {
            return Some(i - 1);
        }
        assert(t.drop_last() =~= graph_view(g@).take(i - 1));
        i = i - 1;
    }
    None
}

/// The visit of `n` (see `visit`).
fn visit_exec(
    g: &Vec<(String, Vec<String>)>,
    n: &String,
    done: &mut Vec<String>,
    path: &mut Vec<String>,
    fuel: usize,
) -> (r: Result<(), ComposeError>)
    ensures
        visit(graph_view(g@), n@, views(old(done)@), views(old(path)@), fuel as nat) == (match r {
            Ok(_) => Ok(views(final(done)@)),
            Err(e) => Err(e),
        }),
        views(final(path)@) == views(old(path)@),
    decreases fuel, 0nat,
{
    if holds(done, n) {
        return Ok(());
    }
    if holds(path, n) {
        return Err(ComposeError::Cycle);
    }
    let i = match find(g, n) {
        Some(i) => i,
        None => return Err(ComposeError::NotFound),
    };
    if fuel == 0 {
        return Err(ComposeError::Cycle);
    }
    let ghost p0 = views(path@);
    path.push(n.clone());
    assert(views(path@) =~= p0.push(n@));
    let res = visit_all_exec(g, &g[i].1, done, path, fuel - 1);
    let ghost p1 = path@;
    path.pop();
    assert(views(path@) =~= views(p1).drop_last());
    match res {
        Ok(()) => {
            let ghost d0 = views(done@);
            done.push(n.clone());
            assert(views(done@) =~= d0.push(n@));
            Ok(())
        },
        Err(e) => Err(e),
    }
}

/// The visits of the names `ns`, in order (see `visit_all`).
fn visit_all_exec(
    g: &Vec<(String, Vec<String>)>,
    ns: &Vec<String>,
    done: &mut Vec<String>,
    path: &mut Vec<String>,
    fuel: usize,
) -> (r: Result<(), ComposeError>)
    ensures
        visit_all(graph_view(g@), views(ns@), views(old(done)@), views(old(path)@), fuel as nat) == (
        match r {
            Ok(_) => Ok(views(final(done)@)),
            Err(e) => Err(e),
        }),
        views(final(path)@) == views(old(path)@),
    decreases fuel, ns@.len() + 1,
{
    let ghost gv = graph_view(g@);
    let ghost d0 = views(done@);
    let ghost pv = views(path@);
    let mut i: usize = 0;
    assert(views(ns@).take(0) =~= Seq::<Seq<char>>::empty());
    while i < ns.len()
        invariant
            i <= ns@.len(),
            gv == graph_view(g@),
            views(path@) == pv,
            d0 == views(old(done)@),
            pv == views(old(path)@),
            visit_all(gv, views(ns@).take(i as int), d0, pv, fuel as nat) == Ok::<
                Seq<Seq<char>>,
                ComposeError,
            >(views(done@)),
        decreases ns@.len() - i,
    {
        let ghost t = views(ns@).take(i + 1);
        assert(t.drop_last() =~= views(ns@).take(i as int));
        assert(t.last() == ns@[i as int]@);
        assert(t.len() < ns@.len() + 1);
        match visit_exec(g, &ns[i], done, path, fuel) {
            Ok(()) => {},
            Err(e) => {
                proof {
                    lemma_visit_all_err(gv, views(ns@), d0, pv, fuel as nat, i + 1, e);
                }
                return Err(e);
            },
        }
        i = i + 1;
    }
    assert(views(ns@).take(i as int) =~= views(ns@));
    Ok(())
}

/// Once the visits of a prefix of the names fail, the visits of all fail
/// with the same error.
proof fn lemma_visit_all_err(
    g: Seq<(Seq<char>, Seq<Seq<char>>)>,
    ns: Seq<Seq<char>>,
    done: Seq<Seq<char>>,
    path: Seq<Seq<char>>,
    fuel: nat,
    k: int,
    e: ComposeError,
)
    requires
        0 <= k <= ns.len(),
        visit_all(g, ns.take(k), done, path, fuel) == Err::<Seq<Seq<char>>, ComposeError>(e),
    ensures
        visit_all(g, ns, done, path, fuel) == Err::<Seq<Seq<char>>, ComposeError>(e),
    decreases ns.len() - k,
{
    if k < ns.len() {
        assert(ns.take(k + 1).drop_last() =~= ns.take(k));
        lemma_visit_all_err(g, ns, done, path, fuel, k + 1, e);
    } else {
        assert(ns.take(k) =~= ns);
    }
}

/// No name occurs twice.
pub open spec fn no_dup(d: Seq<Seq<char>>) -> bool {
    forall|i: int, j: int| 0 <= i < j < d.len() ==> d[i] != d[j]
}

/// Each name of `d` is in the graph, and comes after every name it uses.
pub open spec fn uses_come_first(g: Seq<(Seq<char>, Seq<Seq<char>>)>, d: Seq<Seq<char>>) -> bool {
    forall|i: int|
        #![trigger d[i]]
        0 <= i < d.len() ==> uses_in(g, d[i]) is Some && forall|k: int|
            0 <= k < uses_in(g, d[i]).unwrap().len() ==> d.take(i).contains(
                #[trigger] uses_in(g, d[i]).unwrap()[k],
            )
}

/// What a successful visit keeps and adds: it extends `done`, holds the
/// name visited, adds no name of `path`, and keeps `done` free of repeats
/// and in an order where uses come first.
proof fn lemma_visit(
    g: Seq<(Seq<char>, Seq<Seq<char>>)>,
    n: Seq<char>,
    done: Seq<Seq<char>>,
    path: Seq<Seq<char>>,
    fuel: nat,
)
    ensures
        visit(g, n, done, path, fuel) matches Ok(d) ==> {
            &&& done.len() <= d.len() && d.take(done.len() as int) == done
            &&& d.contains(n)
            &&& forall|j: int| done.len() <= j < d.len() ==> !path.contains(#[trigger] d[j])
            &&& no_dup(done) ==> no_dup(d)
            &&& uses_come_first(g, done) ==> uses_come_first(g, d)
        },
    decreases fuel, 0nat,
{
    if done.contains(n) {
        assert(done.take(done.len() as int) =~= done);
    } else if !path.contains(n) && uses_in(g, n) is Some && fuel > 0 {
        let us = uses_in(g, n).unwrap();
        let p2 = path.push(n);
        lemma_visit_all(g, us, done, p2, (fuel - 1) as nat);
        if let Ok(d1) = visit_all(g, us, done, p2, (fuel - 1) as nat) {
            let d = d1.push(n);
            assert(d.take(done.len() as int) =~= d1.take(done.len() as int));
            assert(d[d1.len() as int] == n);
            assert forall|j: int| done.len() <= j < d.len() implies !path.contains(#[trigger] d[j]) by {
                if j < d1.len() {
                    assert(d[j] == d1[j]);
                    if path.contains(d1[j]) {
                        let a = choose|a: int| 0 <= a < path.len() && path[a] == d1[j];
                        assert(p2[a] == d1[j]);
                    }
                }
            }
            assert(p2[path.len() as int] == n);
            assert(!d1.contains(n)) by {
                if d1.contains(n) {
                    let j = choose|j: int| 0 <= j < d1.len() && d1[j] == n;
                    if j < done.len() {
                        assert(d1.take(done.len() as int)[j] == n);
                    }
                }
            }
            if no_dup(done) {
                assert forall|i: int, j: int| 0 <= i < j < d.len() implies d[i] != d[j] by {
                    if j < d1.len() {
                        assert(d[i] == d1[i] && d[j] == d1[j]);
                    } else {
                        assert(d[i] == d1[i]);
                    }
                }
            }
            if uses_come_first(g, done) {
                assert forall|i: int| #![trigger d[i]] 0 <= i < d.len() implies uses_in(g, d[i]) is Some
                    && forall|k: int|
                    0 <= k < uses_in(g, d[i]).unwrap().len() ==> d.take(i).contains(
                        #[trigger] uses_in(g, d[i]).unwrap()[k],
                    ) by {
                    if i < d1.len() {
                        assert(d[i] == d1[i]);
                        assert(d.take(i) =~= d1.take(i));
                        assert(uses_in(g, d1[i]) is Some);
                    } else {
                        assert(d.take(i) =~= d1);
                        assert forall|k: int| 0 <= k < us.len() implies d.take(i).contains(#[trigger] us[k]) by {
                            assert(d1.contains(us[k]));
                        }
                    }
                }
            }
        }
    }
}

/// What successful visits of `ns` keep and add: as for one visit, with
/// every name of `ns` held.
proof fn lemma_visit_all(
    g: Seq<(Seq<char>, Seq<Seq<char>>)>,
    ns: Seq<Seq<char>>,
    done: Seq<Seq<char>>,
    path: Seq<Seq<char>>,
    fuel: nat,
)
    ensures
        visit_all(g, ns, done, path, fuel) matches Ok(d) ==> {
            &&& done.len() <= d.len() && d.take(done.len() as int) == done
            &&& forall|k: int| 0 <= k < ns.len() ==> d.contains(#[trigger] ns[k])
            &&& forall|j: int| done.len() <= j < d.len() ==> !path.contains(#[trigger] d[j])
            &&& no_dup(done) ==> no_dup(d)
            &&& uses_come_first(g, done) ==> uses_come_first(g, d)
        },
    decreases fuel, ns.len() + 1,
{
    if ns.len() == 0 {
        assert(done.take(done.len() as int) =~= done);
    } else {
        let ns1 = ns.drop_last();
        lemma_visit_all(g, ns1, done, path, fuel);
        if let Ok(d1) = visit_all(g, ns1, done, path, fuel) {
            lemma_visit(g, ns.last(), d1, path, fuel);
            if let Ok(d) = visit(g, ns.last(), d1, path, fuel) {
                assert(d.take(done.len() as int) =~= d.take(d1.len() as int).take(done.len() as int));
                assert forall|k: int| 0 <= k < ns.len() implies d.contains(#[trigger] ns[k]) by {
                    if k < ns.len() - 1 {
                        assert(ns1[k] == ns[k]);
                        let j = choose|j: int| 0 <= j < d1.len() && d1[j] == ns[k];
                        assert(d.take(d1.len() as int)[j] == ns[k]);
                    }
                }
                assert forall|j: int| done.len() <= j < d.len() implies !path.contains(#[trigger] d[j]) by {
                    if j < d1.len() {
                        assert(d.take(d1.len() as int)[j] == d[j]);
                    }
                }
            }
        }
    }
}

/// The order of application of the overlay `start` over the graph `graph`:
/// the depth-first order of `visit`, with more fuel than the graph has
/// entries, so that only a cycle exhausts it.
pub open spec fn application_order_spec(g: Seq<(Seq<char>, Seq<Seq<char>>)>, start: Seq<char>) -> Result<
    Seq<Seq<char>>,
    ComposeError,
> {
    visit(g, start, Seq::empty(), Seq::empty(), g.len() + 1)
}

/// The order in which `start` and the overlays it uses are applied, over a
/// graph that gives for each overlay the names it uses. Each overlay comes
/// once, after all that it uses, and `start` comes last.
pub fn application_order(start: &String, graph: &Vec<(String, Vec<String>)>) -> (r: Result<
    Vec<String>,
    ComposeError,
>)
    requires
        graph@.len() < usize::MAX,
    ensures
        application_order_spec(graph_view(graph@), start@) == (match r {
            Ok(v) => Ok(views(v@)),
            Err(e) => Err(e),
        }),
        r matches Ok(v) ==> v@.len() > 0 && v@.last()@ == start@,
        r matches Ok(v) ==> no_dup(views(v@)) && uses_come_first(graph_view(graph@), views(v@)),
{
    let mut done: Vec<String> = Vec::new();
    let mut path: Vec<String> = Vec::new();
    assert(views(done@) =~= Seq::<Seq<char>>::empty());
    assert(views(path@) =~= Seq::<Seq<char>>::empty());
    let r = visit_exec(graph, start, &mut done, &mut path, graph.len() + 1);
    proof {
        assert(graph_view(graph@).len() == graph@.len());
    }
    match r {
        Ok(()) => {
            proof {
                lemma_visit_ends_with(graph_view(graph@), start@, (graph@.len() + 1) as nat);
                lemma_visit(
                    graph_view(graph@),
                    start@,
                    Seq::empty(),
                    Seq::empty(),
                    (graph@.len() + 1) as nat,
                );
                assert(views(done@).last() == done@.last()@);
            }
            Ok(done)
        },
        Err(e) => Err(e),
    }
}

/// A visit from nothing done ends with the name visited.
proof fn lemma_visit_ends_with(g: Seq<(Seq<char>, Seq<Seq<char>>)>, n: Seq<char>, fuel: nat)
    requires
        visit(g, n, Seq::empty(), Seq::empty(), fuel) is Ok,
    ensures
        visit(g, n, Seq::empty(), Seq::empty(), fuel).unwrap().len() > 0,
        visit(g, n, Seq::empty(), Seq::empty(), fuel).unwrap().last() == n,
{
    assert(!Seq::<Seq<char>>::empty().contains(n));
}

/// The name of an overlay that the graph lacks and that the order of
/// application of `start` needs: `start` itself, or a name that an overlay
/// of the graph uses. `None` once the graph holds all of them.
pub fn next_to_load(start: &String, graph: &Vec<(String, Vec<String>)>) -> (r: Option<String>)
    ensures
        r is None ==> uses_in(graph_view(graph@), start@) is Some && forall|i: int, j: int|
            0 <= i < graph@.len() && 0 <= j < graph@[i].1@.len() ==> uses_in(
                graph_view(graph@),
                #[trigger] graph@[i].1@[j]@,
            ) is Some,
        r matches Some(n) ==> uses_in(graph_view(graph@), n@) is None && (n@ == start@ || exists|
            i: int,
            j: int,
        | 0 <= i < graph@.len() && 0 <= j < graph@[i].1@.len() && #[trigger] graph@[i].1@[j]@ == n@),
{
    if find(graph, start).is_none() {
        return Some(start.clone());
    }
    let mut i: usize = 0;
    while i < graph.len()
        invariant
            i <= graph@.len(),
            forall|a: int, b: int|
                0 <= a < i && 0 <= b < graph@[a].1@.len() ==> uses_in(
                    graph_view(graph@),
                    #[trigger] graph@[a].1@[b]@,
                ) is Some,
        decreases graph@.len() - i,
    {
        let uses = &graph[i].1;
        let mut j: usize = 0;
        while j < uses.len()
            invariant
                i < graph@.len(),
                uses == graph@[i as int].1,
                j <= uses@.len(),
                forall|a: int, b: int|
                    0 <= a < i && 0 <= b < graph@[a].1@.len() ==> uses_in(
                        graph_view(graph@),
                        #[trigger] graph@[a].1@[b]@,
                    ) is Some,
                forall|b: int| 0 <= b < j ==> uses_in(graph_view(graph@), #[trigger] uses@[b]@) is Some,
            decreases uses@.len() - j,
        {
            if find(graph, &uses[j]).is_none() {
                return Some(uses[j].clone());
            }
            j = j + 1;
        }
        i = i + 1;
    }
    None
}

/// Last applied wins: when `start` is applied, the steps of each overlay of
/// its order of application run in that order (`plans[i]` for the `i`-th),
/// and the run succeeds, then `start` comes last and each path that its own
/// steps populate holds what `start` puts there, whatever the overlays it
/// uses put at the same path.
pub proof fn lemma_applied_overlay_wins(
    g: Seq<(Seq<char>, Seq<Seq<char>>)>,
    start: Seq<char>,
    plans: Seq<Seq<StepModel>>,
    tree: Map<Seq<char>, Node>,
    overwrite: bool,
    k: int,
)
    requires
        application_order_spec(g, start) is Ok,
        plans.len() == application_order_spec(g, start).unwrap().len(),
        plans.len() > 0 ==> distinct_targets(plans.last()) && 0 <= k < plans.last().len(),
        run_spec(tree, plans.flatten_alt(), overwrite).failed is None,
    ensures
        plans.len() > 0,
        application_order_spec(g, start).unwrap().last() == start,
        holds_goal(
            node_at(run_spec(tree, plans.flatten_alt(), overwrite).tree, step_target(plans.last()[k])),
            plans.last()[k],
        ),
{
    lemma_visit_ends_with(g, start, (g.len() + 1) as nat);
    lemma_last_applied_wins(tree, plans.drop_last().flatten_alt(), plans.last(), overwrite, k);
}

} // verus!
