//! Planning of an import: which modules run, and in which order.
//!
//! Import cycles: a dependency that is still being visited when it is met
//! again is not entered a second time. The dependent then sees the module
//! in progress, not yet evaluated, and the run goes on.
use vstd::prelude::*;
use crate::module_map::{ModuleMap, ModuleRecord, ModuleState, is_terminal};
use crate::validator::ScriptValue;

verus! {

/// `p` follows dependency edges of `m` from its first to its last element.
pub open spec fn is_chain(m: &ModuleMap, p: Seq<usize>) -> bool {
    forall|k: int| 0 <= k < p.len() - 1 ==> #[trigger] m.deps_of(p[k] as int).contains(p[k + 1])
}

/// Module `a` leads to module `b` through zero or more dependency edges.
pub open spec fn reaches(m: &ModuleMap, a: usize, b: usize) -> bool {
    exists|p: Seq<usize>| p.len() >= 1 && p[0] == a && p.last() == b && #[trigger] is_chain(m, p)
}

/// No dependency of a module leads back to it.
pub open spec fn acyclic(m: &ModuleMap) -> bool {
    forall|u: int, k: int|
        0 <= u < m.len_spec() && 0 <= k < m.deps_of(u).len()
            ==> !reaches(m, #[trigger] m.deps_of(u)[k], u as usize)
}

pub open spec fn done_before(m: &ModuleMap, v: usize) -> bool {
    is_terminal(m.state_of(v as int))
}

/// What an evaluation order for an import of `root` satisfies: it runs
/// each module that `root` leads to and that has not finished, once each,
/// and puts each dependency before its dependent, unless the dependent
/// leads back to the dependency through a cycle.
pub open spec fn is_evaluation_order(m: &ModuleMap, root: usize, order: Seq<usize>) -> bool {
    &&& order.no_duplicates()
    &&& forall|i: int| 0 <= i < order.len() ==> #[trigger] order[i] < m.len_spec()
    &&& forall|i: int| 0 <= i < order.len() ==> !done_before(m, #[trigger] order[i])
    &&& forall|i: int| 0 <= i < order.len() ==> reaches(m, root, #[trigger] order[i])
    &&& done_before(m, root) ==> order.len() == 0
    &&& !done_before(m, root) ==> order.len() > 0 && order.last() == root
    &&& forall|i: int, k: int|
        0 <= i < order.len() && 0 <= k < m.deps_of(order[i] as int).len() ==> {
            let v = #[trigger] m.deps_of(order[i] as int)[k];
            done_before(m, v) || order.contains(v)
        }
    &&& forall|i: int, k: int|
        0 <= i < order.len() && 0 <= k < m.deps_of(order[i] as int).len() ==> {
            let v = #[trigger] m.deps_of(order[i] as int)[k];
            done_before(m, v) || order.subrange(0, i).contains(v) || reaches(m, v, order[i])
        }
}

pub open spec fn count_unvisited(s: Seq<bool>) -> nat
    decreases s.len(),
{
    if s.len() == 0 {
        0
    } else {
        count_unvisited(s.drop_last()) + if s.last() { 0nat } else { 1nat }
    }
}

proof fn lemma_mark_visited(s: Seq<bool>, i: int)
    requires
        0 <= i < s.len(),
        !s[i],
    ensures
        count_unvisited(s.update(i, true)) + 1 == count_unvisited(s),
    decreases s.len(),
{
    let t = s.update(i, true);
    if i < s.len() - 1 {
        assert(t.drop_last() =~= s.drop_last().update(i, true));
        lemma_mark_visited(s.drop_last(), i);
    } else {
        assert(t.drop_last() =~= s.drop_last());
    }
}

proof fn lemma_more_visited(s: Seq<bool>, t: Seq<bool>)
    requires
        s.len() == t.len(),
        forall|i: int| 0 <= i < s.len() && s[i] ==> t[i],
    ensures
        count_unvisited(t) <= count_unvisited(s),
    decreases s.len(),
{
    if s.len() > 0 {
        lemma_more_visited(s.drop_last(), t.drop_last());
    }
}

/// The visited flags are exactly the finished modules, those already
/// ordered, and those on the current path.
spec fn visited_inv(m: &ModuleMap, visited: Seq<bool>, order: Seq<usize>, path: Seq<usize>) -> bool {
    &&& visited.len() == m.len_spec()
    &&& forall|x: usize| (x as int) < visited.len() ==>
        (#[trigger] visited[x as int] <==> (done_before(m, x) || order.contains(x) || path.contains(x)))
}

spec fn order_inv(m: &ModuleMap, root: usize, visited: Seq<bool>, order: Seq<usize>) -> bool {
    &&& order.no_duplicates()
    &&& forall|i: int| 0 <= i < order.len() ==> #[trigger] order[i] < m.len_spec()
    &&& forall|i: int| 0 <= i < order.len() ==> !done_before(m, #[trigger] order[i])
    &&& forall|i: int| 0 <= i < order.len() ==> reaches(m, root, #[trigger] order[i])
    &&& forall|i: int, k: int|
        0 <= i < order.len() && 0 <= k < m.deps_of(order[i] as int).len() ==>
            visited[#[trigger] m.deps_of(order[i] as int)[k] as int]
    &&& forall|i: int, k: int|
        0 <= i < order.len() && 0 <= k < m.deps_of(order[i] as int).len() ==> {
            let v = #[trigger] m.deps_of(order[i] as int)[k];
            done_before(m, v) || order.subrange(0, i).contains(v) || reaches(m, v, order[i])
        }
}

spec fn path_inv(m: &ModuleMap, root: usize, path: Seq<usize>) -> bool {
    &&& path.len() > 0 ==> path[0] == root
    &&& is_chain(m, path)
    &&& forall|k: int| 0 <= k < path.len() ==> #[trigger] path[k] < m.len_spec()
}

proof fn lemma_chain_reaches(m: &ModuleMap, path: Seq<usize>, k: int, u: usize)
    requires
        is_chain(m, path),
        0 <= k < path.len(),
        m.deps_of(path.last() as int).contains(u),
    ensures
        reaches(m, path[k], u),
{
    let p = path.subrange(k, path.len() as int).push(u);
    assert forall|j: int| 0 <= j < p.len() - 1 implies #[trigger] m.deps_of(p[j] as int).contains(p[j + 1]) by {
        if j < p.len() - 2 {
            assert(p[j] == path[k + j]);
            assert(p[j + 1] == path[k + j + 1]);
            assert(m.deps_of(path[k + j] as int).contains(path[k + j + 1]));
        }
    }
    assert(is_chain(m, p));
}

fn visit(
    m: &ModuleMap,
    root: usize,
    u: usize,
    visited: &mut Vec<bool>,
    order: &mut Vec<usize>,
    Ghost(path): Ghost<Seq<usize>>,
    Ghost(budget): Ghost<nat>,
)
    requires
        budget == count_unvisited(old(visited)@),
        m.wf(),
        u < m.len_spec(),
        !old(visited)@[u as int],
        path_inv(m, root, path),
        path.len() == 0 ==> u == root,
        path.len() > 0 ==> m.deps_of(path.last() as int).contains(u),
        visited_inv(m, old(visited)@, old(order)@, path),
        order_inv(m, root, old(visited)@, old(order)@),
    ensures
        visited_inv(m, final(visited)@, final(order)@, path),
        order_inv(m, root, final(visited)@, final(order)@),
        forall|x: int| 0 <= x < old(visited)@.len() && old(visited)@[x] ==> final(visited)@[x],
        final(order)@.len() > old(order)@.len(),
        final(order)@.subrange(0, old(order)@.len() as int) == old(order)@,
        final(order)@.last() == u,
        forall|j: int| old(order)@.len() <= j < final(order)@.len() ==> !old(visited)@[#[trigger] final(order)@[j] as int],
    decreases budget,
{
    let ghost v0 = visited@;
    let ghost o0 = order@;
    visited.set(u, true);
    proof {
        lemma_mark_visited(v0, u as int);
        assert(is_chain(m, path.push(u))) by {
            assert forall|k: int| 0 <= k < path.push(u).len() - 1 implies
                #[trigger] m.deps_of(path.push(u)[k] as int).contains(path.push(u)[k + 1]) by {
                if k < path.len() - 1 {
                    assert(path.push(u)[k] == path[k]);
                    assert(path.push(u)[k + 1] == path[k + 1]);
                }
            }
        }
        assert(reaches(m, root, u)) by {
            assert(path.push(u)[0] == root);
        }
        assert forall|x: usize| (x as int) < visited@.len() implies
            (#[trigger] visited@[x as int] <==> (done_before(m, x) || order@.contains(x) || path.push(u).contains(x))) by {
            if x == u {
                assert(path.push(u)[path.len() as int] == u);
            } else {
                assert(visited@[x as int] == v0[x as int]);
                if path.push(u).contains(x) {
                    let j = choose|j: int| 0 <= j < path.push(u).len() && path.push(u)[j] == x;
                    assert(path[j] == x);
                }
                if path.contains(x) {
                    let j = choose|j: int| 0 <= j < path.len() && path[j] == x;
                    assert(path.push(u)[j] == x);
                }
            }
        }
    }
    let ghost v1 = visited@;
    let deps = &m.records[u].deps;
    let mut k: usize = 0;
    while k < deps.len()
        invariant
            m.wf(),
            u < m.len_spec(),
            deps@ == m.deps_of(u as int),
            k <= deps@.len(),
            path_inv(m, root, path.push(u)),
            reaches(m, root, u),
            visited_inv(m, visited@, order@, path.push(u)),
            order_inv(m, root, visited@, order@),
            forall|x: int| 0 <= x < v1.len() && v1[x] ==> visited@[x],
            v1 == v0.update(u as int, true),
            count_unvisited(v1) < count_unvisited(v0),
            budget == count_unvisited(v0),
            v0.len() == v1.len(),
            v1.len() == m.len_spec(),
            order@.len() >= o0.len(),
            order@.subrange(0, o0.len() as int) == o0,
            forall|j: int| o0.len() <= j < order@.len() ==> !v0[#[trigger] order@[j] as int] && order@[j] != u,
            forall|j: int| 0 <= j < k ==> visited@[#[trigger] deps@[j] as int],
        decreases deps@.len() - k,
    {
        let v = deps[k];
        assert(m.deps_of(u as int)[k as int] == v);
        if !visited[v] {
            proof {
                lemma_more_visited(v1, visited@);
                assert(count_unvisited(visited@) < count_unvisited(v0));
            }
            let ghost o1 = order@;
            let ghost v2 = visited@;
            let ghost c = count_unvisited(visited@);
            assert(c < budget);
            visit(m, root, v, visited, order, Ghost(path.push(u)), Ghost(c));
            proof {
                assert forall|j: int| o0.len() <= j < order@.len() implies
                    !v0[#[trigger] order@[j] as int] && order@[j] != u by {
                    if j < o1.len() {
                        assert(order@[j] == order@.subrange(0, o1.len() as int)[j]);
                    } else {
                        let x = order@[j] as int;
                        assert(!v2[x]);
                        assert(v0[x] ==> v1[x]);
                        assert(v1[u as int]);
                    }
                }
                assert(order@.subrange(0, o0.len() as int) =~= o0) by {
                    assert(order@.subrange(0, o1.len() as int) == o1);
                    assert forall|j: int| 0 <= j < o0.len() implies order@[j] == o0[j] by {
                        assert(order@[j] == order@.subrange(0, o1.len() as int)[j]);
                        assert(o1[j] == o1.subrange(0, o0.len() as int)[j]);
                    }
                }
            }
        }
        k = k + 1;
    }
    let ghost o2 = order@;
    order.push(u);
    proof {
        assert(!o2.contains(u)) by {
            if o2.contains(u) {
                let j = choose|j: int| 0 <= j < o2.len() && o2[j] == u;
                if j < o0.len() {
                    assert(o2[j] == o2.subrange(0, o0.len() as int)[j]);
                    assert(o0.contains(u));
                    assert(visited_inv(m, v0, o0, path));
                }
            }
        }
        assert(order@.subrange(0, o2.len() as int) =~= o2);
        assert(order@.subrange(0, o0.len() as int) =~= o0) by {
            assert forall|j: int| 0 <= j < o0.len() implies order@[j] == o0[j] by {
                assert(o2[j] == o2.subrange(0, o0.len() as int)[j]);
            }
        }
        // visited flags
        assert forall|x: usize| (x as int) < visited@.len() implies
            (#[trigger] visited@[x as int] <==> (done_before(m, x) || order@.contains(x) || path.contains(x))) by {
            if path.push(u).contains(x) && !path.contains(x) {
                assert(x == u);
                assert(order@[o2.len() as int] == u);
            }
            if order@.contains(x) {
                let j = choose|j: int| 0 <= j < order@.len() && order@[j] == x;
                if j < o2.len() {
                    assert(o2[j] == x);
                }
            }
            if o2.contains(x) {
                let j = choose|j: int| 0 <= j < o2.len() && o2[j] == x;
                assert(order@[j] == x);
            }
            if x == u {
                assert(path.push(u)[path.len() as int] == u);
            }
            if path.contains(x) {
                let j = choose|j: int| 0 <= j < path.len() && path[j] == x;
                assert(path.push(u)[j] == x);
            }
        }
        // order facts
        assert forall|i: int| 0 <= i < order@.len() implies #[trigger] order@[i] < m.len_spec() by {
            if i < o2.len() { assert(order@[i] == o2[i]); }
        }
        assert forall|i: int| 0 <= i < order@.len() implies !done_before(m, #[trigger] order@[i]) by {
            if i < o2.len() { assert(order@[i] == o2[i]); } else {
                assert(!v0[u as int]);
                assert(visited_inv(m, v0, o0, path));
            }
        }
        assert forall|i: int| 0 <= i < order@.len() implies reaches(m, root, #[trigger] order@[i]) by {
            if i < o2.len() { assert(order@[i] == o2[i]); }
        }
        assert forall|i: int, kk: int|
            0 <= i < order@.len() && 0 <= kk < m.deps_of(order@[i] as int).len() implies
                visited@[#[trigger] m.deps_of(order@[i] as int)[kk] as int] by {
            if i < o2.len() { assert(order@[i] == o2[i]); } else {
                assert(deps@[kk] == m.deps_of(u as int)[kk]);
            }
        }
        assert forall|i: int, kk: int|
            0 <= i < order@.len() && 0 <= kk < m.deps_of(order@[i] as int).len() implies {
                let v = #[trigger] m.deps_of(order@[i] as int)[kk];
                done_before(m, v) || order@.subrange(0, i).contains(v) || reaches(m, v, order@[i])
            } by {
            let v = m.deps_of(order@[i] as int)[kk];
            if i < o2.len() {
                assert(order@[i] == o2[i]);
                assert(order@.subrange(0, i) =~= o2.subrange(0, i));
            } else {
                assert(order@[i] == u);
                assert(order@.subrange(0, i) =~= o2);
                assert(deps@[kk] == v);
                assert(visited@[v as int]);
                if !done_before(m, v) && !o2.contains(v) {
                    // v lies on the current path, which leads to u
                    let pu = path.push(u);
                    let j = choose|j: int| 0 <= j < pu.len() && pu[j] == v;
                    if j < path.len() {
                        assert(path[j] == v);
                        lemma_chain_reaches(m, path, j, u);
                    } else {
                        assert(v == u);
                        assert(is_chain(m, seq![u]));
                    }
                }
            }
        }
        assert(order@.no_duplicates()) by {
            assert forall|a: int, b: int| 0 <= a < b < order@.len() implies order@[a] != order@[b] by {
                if b < o2.len() {
                    assert(order@[a] == o2[a]);
                    assert(order@[b] == o2[b]);
                } else {
                    assert(order@[a] == o2[a]);
                }
            }
        }
        assert forall|j: int| o0.len() <= j < order@.len() implies !v0[#[trigger] order@[j] as int] by {
            if j < o2.len() { assert(order@[j] == o2[j]); }
        }
        assert forall|x: int| 0 <= x < v0.len() && v0[x] implies visited@[x] by {
            assert(v1[x]);
        }
    }
}

/// The modules to evaluate for an import of `root`, in evaluation order:
/// every unfinished module that `root` leads to, once each, dependencies
/// first. Empty when `root` has already been evaluated or has failed.
pub fn evaluation_order(m: &ModuleMap, root: usize) -> (r: Vec<usize>)
    requires
        m.wf(),
        root < m.len_spec(),
    ensures
        is_evaluation_order(m, root, r@),
{
    let n = m.len();
    let mut visited: Vec<bool> = Vec::new();
    let mut i: usize = 0;
    while i < n
        invariant
            n == m.len_spec(),
            i <= n,
            visited@.len() == i,
            forall|x: int| 0 <= x < i ==> #[trigger] visited@[x] == done_before(m, x as usize),
        decreases n - i,
    {
        let st = m.state(i);
        visited.push(st == ModuleState::Evaluated || st == ModuleState::Errored);
        i = i + 1;
    }
    let mut order: Vec<usize> = Vec::new();
    proof {
        assert forall|x: usize| (x as int) < visited@.len() implies
            (#[trigger] visited@[x as int] <==> (done_before(m, x) || order@.contains(x) || Seq::<usize>::empty().contains(x))) by {
            assert(visited@[x as int] == done_before(m, (x as int) as usize));
        }
        assert(is_chain(m, Seq::<usize>::empty()));
    }
    assert(visited@[root as int] == done_before(m, root));
    if !visited[root] {
        let ghost c = count_unvisited(visited@);
        visit(m, root, root, &mut visited, &mut order, Ghost(Seq::empty()), Ghost(c));
    }
    proof {
        assert forall|i: int, k: int|
            0 <= i < order@.len() && 0 <= k < m.deps_of(order@[i] as int).len() implies {
                let v = #[trigger] m.deps_of(order@[i] as int)[k];
                done_before(m, v) || order@.contains(v)
            } by {
            let v = m.deps_of(order@[i] as int)[k];
            assert(m.deps_of(order@[i] as int)[k] < m.len_spec());
            assert(visited@[v as int]);
        }
    }
    order
}

/// Each module of an evaluation order runs once, and a module that has
/// already been evaluated, or has failed, is not run again by a later
/// import of it: its recorded outcome stands.
pub proof fn lemma_single_evaluation(m: &ModuleMap, root: usize, order: Seq<usize>)
    requires
        m.wf(),
        root < m.len_spec(),
        is_evaluation_order(m, root, order),
    ensures
        order.no_duplicates(),
        is_terminal(m.state_of(root as int)) ==> order.len() == 0,
        forall|i: int| 0 <= i < order.len() ==> !is_terminal(m.state_of(#[trigger] order[i] as int)),
{
    assert forall|i: int| 0 <= i < order.len() implies !is_terminal(m.state_of(#[trigger] order[i] as int)) by {
        assert(!done_before(m, order[i]));
    }
}

/// Once the evaluation of a module has been recorded, a later import of it
/// evaluates nothing, and the recorded outcome is what that import sees.
pub proof fn lemma_import_twice(
    before: &ModuleMap,
    after: &ModuleMap,
    root: usize,
    outcome: Result<ScriptValue, String>,
    order: Seq<usize>,
)
    requires
        before.wf(),
        after.wf(),
        root < before.len_spec(),
        before.state_of(root as int) == ModuleState::Evaluating,
        after.records@ == before.records@.update(root as int, ModuleRecord {
            state: if outcome is Ok { ModuleState::Evaluated } else { ModuleState::Errored },
            outcome: Some(outcome),
            ..before.records@[root as int]
        }),
        is_evaluation_order(after, root, order),
    ensures
        order.len() == 0,
        after.records@[root as int].outcome == Some(outcome),
{
    assert(after.records@[root as int].state == if outcome is Ok { ModuleState::Evaluated } else { ModuleState::Errored });
}

/// Without cycles, each dependency that still has to run comes before
/// every module that depends on it.
pub proof fn lemma_acyclic_dependencies_first(m: &ModuleMap, root: usize, order: Seq<usize>)
    requires
        m.wf(),
        root < m.len_spec(),
        acyclic(m),
        is_evaluation_order(m, root, order),
    ensures
        forall|i: int, k: int|
            0 <= i < order.len() && 0 <= k < m.deps_of(order[i] as int).len() ==> {
                let v = #[trigger] m.deps_of(order[i] as int)[k];
                is_terminal(m.state_of(v as int)) || order.subrange(0, i).contains(v)
            },
{
    assert forall|i: int, k: int|
        0 <= i < order.len() && 0 <= k < m.deps_of(order[i] as int).len() implies {
            let v = #[trigger] m.deps_of(order[i] as int)[k];
            is_terminal(m.state_of(v as int)) || order.subrange(0, i).contains(v)
        } by {
        let u = order[i] as int;
        assert(0 <= u < m.len_spec());
        assert(!reaches(m, m.deps_of(u)[k], u as usize));
    }
}

/// Every module that `root` leads to through unfinished modules only is
/// in the evaluation order.
pub proof fn lemma_order_complete(m: &ModuleMap, root: usize, order: Seq<usize>, p: Seq<usize>)
    requires
        m.wf(),
        root < m.len_spec(),
        is_evaluation_order(m, root, order),
        p.len() >= 1,
        p[0] == root,
        is_chain(m, p),
        forall|k: int| 0 <= k < p.len() ==> !is_terminal(m.state_of(#[trigger] p[k] as int)),
    ensures
        order.contains(p.last()),
    decreases p.len(),
{
    if p.len() == 1 {
        assert(!done_before(m, root));
        assert(order[order.len() - 1] == root);
    } else {
        let q = p.drop_last();
        assert forall|k: int| 0 <= k < q.len() - 1 implies #[trigger] m.deps_of(q[k] as int).contains(q[k + 1]) by {
            assert(m.deps_of(p[k] as int).contains(p[k + 1]));
        }
        assert(!is_terminal(m.state_of(q[q.len() - 1] as int)));
        assert forall|k: int| 0 <= k < q.len() implies !is_terminal(m.state_of(#[trigger] q[k] as int)) by {
            assert(q[k] == p[k]);
        }
        lemma_order_complete(m, root, order, q);
        let u = q.last();
        let i = choose|i: int| 0 <= i < order.len() && order[i] == u;
        let k2 = p.len() - 2;
        assert(m.deps_of(p[k2] as int).contains(p[k2 + 1]));
        assert(q.last() == p[k2]);
        let k = choose|k: int| 0 <= k < m.deps_of(u as int).len() && m.deps_of(u as int)[k] == p.last();
        assert(m.deps_of(order[i] as int)[k] == p.last());
        assert(!done_before(m, p.last())) by {
            assert(!is_terminal(m.state_of(p[p.len() - 1] as int)));
        }
    }
}

} // verus!
