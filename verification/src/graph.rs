use vstd::prelude::*;

verus! {

use std::collections::HashMap;

broadcast use vstd::std_specs::hash::group_hash_axioms, vstd::seq_lib::group_seq_properties;

/// `to` can be reached from one of `roots` by following successor edges of
/// `graph`.
pub open spec fn reachable(graph: Map<u64, Vec<u64>>, roots: Seq<u64>, to: u64) -> bool {
    exists|path: Seq<u64>|
        {
            &&& path.len() >= 1
            &&& roots.contains(path[0])
            &&& path.last() == to
            &&& forall|i: int|
                0 <= i < path.len() - 1 ==> graph.contains_key(#[trigger] path[i])
                    && graph[path[i]]@.contains(path[i + 1])
        }
}

proof fn lemma_reachable_root(graph: Map<u64, Vec<u64>>, roots: Seq<u64>, r: u64)
    requires
        roots.contains(r),
    ensures
        reachable(graph, roots, r),
{
    let path = seq![r];
    assert(path.len() >= 1 && roots.contains(path[0]) && path.last() == r);
}

proof fn lemma_reachable_step(graph: Map<u64, Vec<u64>>, roots: Seq<u64>, from: u64, to: u64)
    requires
        reachable(graph, roots, from),
        graph.contains_key(from),
        graph[from]@.contains(to),
    ensures
        reachable(graph, roots, to),
{
    let path = choose|path: Seq<u64>|
        {
            &&& path.len() >= 1
            &&& roots.contains(path[0])
            &&& path.last() == from
            &&& forall|i: int|
                0 <= i < path.len() - 1 ==> graph.contains_key(#[trigger] path[i])
                    && graph[path[i]]@.contains(path[i + 1])
        };
    let longer = path.push(to);
    assert(longer.last() == to);
    assert forall|i: int| 0 <= i < longer.len() - 1 implies graph.contains_key(
        #[trigger] longer[i],
    ) && graph[longer[i]]@.contains(longer[i + 1]) by {
        if i < path.len() - 1 {
            assert(longer[i] == path[i] && longer[i + 1] == path[i + 1]);
        } else {
            assert(longer[i] == path.last() && longer[i + 1] == to);
        }
    }
}

/// A path of successor edges leads from `from` to `to`.
pub open spec fn reaches(graph: Map<u64, Vec<u64>>, from: u64, to: u64) -> bool {
    exists|path: Seq<u64>|
        {
            &&& path.len() >= 1
            &&& path[0] == from
            &&& path.last() == to
            &&& forall|i: int|
                0 <= i < path.len() - 1 ==> graph.contains_key(#[trigger] path[i])
                    && graph[path[i]]@.contains(path[i + 1])
        }
}

/// No reachable node starts an edge whose target can walk back around to
/// it: the subgraph the roots reach is acyclic.
pub open spec fn acyclic_reachable(graph: Map<u64, Vec<u64>>, roots: Seq<u64>) -> bool {
    forall|x: u64, y: u64|
        reachable(graph, roots, x) && graph.contains_key(x) && #[trigger] graph[x]@.contains(y)
            && #[trigger] reaches(graph, y, x) ==> false
}

/// `v` stands somewhere before position `i` of the listing.
pub open spec fn listed_before(result: Seq<u64>, i: int, v: u64) -> bool {
    exists|i2: int| 0 <= i2 < i && #[trigger] result[i2] == v
}

/// The listing names every successor of an entry at a strictly earlier
/// position: a reverse topological order.
pub open spec fn reverse_topological(graph: Map<u64, Vec<u64>>, result: Seq<u64>) -> bool {
    forall|i: int, j: int|
        #![trigger graph[result[i]]@[j]]
        0 <= i < result.len() && graph.contains_key(result[i]) && 0 <= j < graph[result[i]]@.len()
            ==> listed_before(result, i, graph[result[i]]@[j])
}

proof fn lemma_reaches_step(graph: Map<u64, Vec<u64>>, from: u64, to: u64)
    requires
        graph.contains_key(from),
        graph[from]@.contains(to),
    ensures
        reaches(graph, from, to),
{
    let path = seq![from, to];
    assert(path.len() >= 1 && path[0] == from && path.last() == to);
    assert forall|i: int| 0 <= i < path.len() - 1 implies graph.contains_key(#[trigger] path[i])
        && graph[path[i]]@.contains(path[i + 1]) by {
        assert(i == 0);
    }
}

proof fn lemma_reaches_trans(graph: Map<u64, Vec<u64>>, a: u64, b: u64, c: u64)
    requires
        reaches(graph, a, b),
        reaches(graph, b, c),
    ensures
        reaches(graph, a, c),
{
    let p1 = choose|p1: Seq<u64>|
        {
            &&& p1.len() >= 1
            &&& p1[0] == a
            &&& p1.last() == b
            &&& forall|i: int|
                0 <= i < p1.len() - 1 ==> graph.contains_key(#[trigger] p1[i])
                    && graph[p1[i]]@.contains(p1[i + 1])
        };
    let p2 = choose|p2: Seq<u64>|
        {
            &&& p2.len() >= 1
            &&& p2[0] == b
            &&& p2.last() == c
            &&& forall|i: int|
                0 <= i < p2.len() - 1 ==> graph.contains_key(#[trigger] p2[i])
                    && graph[p2[i]]@.contains(p2[i + 1])
        };
    let joined = p1 + p2.skip(1);
    if p2.len() == 1 {
        assert(joined =~= p1);
        assert(b == c);
    } else {
        assert(joined.len() == p1.len() + p2.len() - 1);
        assert(joined[0] == p1[0]);
        assert(joined.last() == p2.last());
        assert forall|i: int| 0 <= i < joined.len() - 1 implies graph.contains_key(
            #[trigger] joined[i],
        ) && graph[joined[i]]@.contains(joined[i + 1]) by {
            if i < p1.len() - 1 {
                assert(joined[i] == p1[i]);
                if i + 1 < p1.len() {
                    assert(joined[i + 1] == p1[i + 1]);
                }
            } else if i == p1.len() - 1 {
                assert(joined[i] == p1.last());
                assert(p1.last() == p2[0]);
                assert(joined[i + 1] == p2[1]);
                assert(graph.contains_key(p2[0]) && graph[p2[0]]@.contains(p2[1]));
            } else {
                assert(joined[i] == p2[i - p1.len() + 1]);
                assert(joined[i + 1] == p2[i - p1.len() + 2]);
                assert(graph.contains_key(p2[i - p1.len() + 1]) && graph[p2[i - p1.len()
                    + 1]]@.contains(p2[i - p1.len() + 2]));
            }
        }
    }
}

/// Below any closing entry, everything higher on the stack is a
/// descendant of its node.
pub open spec fn stack_chain(graph: Map<u64, Vec<u64>>, st: Seq<(bool, u64)>) -> bool {
    forall|k1: int, k2: int|
        0 <= k1 < k2 < st.len() && (#[trigger] st[k1]).0 ==> reaches(
            graph,
            st[k1].1,
            (#[trigger] st[k2]).1,
        )
}

/// Each successor of an open node is discovered or still pending above
/// that node's closing entry.
pub open spec fn open_succs_covered(
    graph: Map<u64, Vec<u64>>,
    st: Seq<(bool, u64)>,
    marks: Map<u64, bool>,
) -> bool {
    forall|k: int, j: int|
        #![trigger graph[st[k].1]@[j]]
        0 <= k < st.len() && st[k].0 && graph.contains_key(st[k].1) && 0 <= j < graph[st[k].1]@.len()
            ==> marks.contains_key(graph[st[k].1]@[j]) || exists|k2: int|
            k < k2 < st.len() && #[trigger] st[k2] == (false, graph[st[k].1]@[j])
}

/// Some position of `st` holds exactly the entry `e`.
pub open spec fn has_entry(st: Seq<(bool, u64)>, e: (bool, u64)) -> bool {
    exists|k: int| 0 <= k < st.len() && st[k] == e
}

proof fn lemma_has_entry_pop(st: Seq<(bool, u64)>, e: (bool, u64))
    requires
        st.len() >= 1,
        has_entry(st, e),
        st.last() != e,
    ensures
        has_entry(st.drop_last(), e),
{
    let k = choose|k: int| 0 <= k < st.len() && st[k] == e;
    assert(st.drop_last()[k] == e);
}

proof fn lemma_has_entry_extend(st: Seq<(bool, u64)>, st2: Seq<(bool, u64)>, e: (bool, u64))
    requires
        has_entry(st, e),
        st2.len() >= st.len(),
        forall|k: int| 0 <= k < st.len() ==> st2[k] == st[k],
    ensures
        has_entry(st2, e),
{
    let k = choose|k: int| 0 <= k < st.len() && st[k] == e;
    assert(st2[k] == e);
}

/// Depth-first search over `graph` starting from `roots`.
///
/// The result lists each node reachable from the roots exactly once: the
/// nodes of the result are closed under the successor edges, and nothing
/// unreachable appears.  With `postorder` a node is emitted after the nodes
/// discovered below it, otherwise when it is first discovered.
#[verifier::rlimit(100)]
pub fn dfs(graph: &HashMap<u64, Vec<u64>>, roots: &Vec<u64>, postorder: bool) -> (result: Vec<u64>)
    ensures
        result@.no_duplicates(),
        forall|i: int| 0 <= i < roots@.len() ==> result@.contains(#[trigger] roots@[i]),
        forall|x: u64| #[trigger] result@.contains(x) ==> reachable(graph@, roots@, x),
        forall|x: u64| #[trigger]
            result@.contains(x) && graph@.contains_key(x) ==> (forall|j: int|
                0 <= j < graph@[x]@.len() ==> result@.contains(#[trigger] graph@[x]@[j])),
        postorder && acyclic_reachable(graph@, roots@) ==> reverse_topological(graph@, result@),
{
    let ghost g = graph@;
    let mut marks: HashMap<u64, bool> = HashMap::new();
    let mut result: Vec<u64> = Vec::new();
    let mut ri: usize = 0;
    while ri < roots.len()
        invariant
            0 <= ri <= roots@.len(),
            g == graph@,
            result@.no_duplicates(),
            forall|x: u64| #[trigger] result@.contains(x) <==> marks@.contains_key(x),
            forall|i: int| 0 <= i < ri ==> result@.contains(#[trigger] roots@[i]),
            forall|x: u64| #[trigger] marks@.contains_key(x) ==> reachable(g, roots@, x),
            forall|x: u64, j: int|
                marks@.contains_key(x) && g.contains_key(x) && 0 <= j < g[x]@.len()
                    ==> marks@.contains_key(#[trigger] g[x]@[j]),
            postorder && acyclic_reachable(g, roots@) ==> reverse_topological(g, result@),
        decreases roots@.len() - ri,
    {
        let root = roots[ri];
        proof {
            lemma_reachable_root(g, roots@, root);
        }
        let mut stack: Vec<(bool, u64)> = Vec::new();
        stack.push((false, root));
        proof {
            assert(stack@[0] == (false, root));
        }
        loop
            invariant
                g == graph@,
                result@.no_duplicates(),
                forall|i: int| 0 <= i < ri ==> result@.contains(#[trigger] roots@[i]),
                // every emitted node was discovered, and a discovered node is
                // emitted unless its closing entry is still on the stack
                forall|x: u64| #[trigger] result@.contains(x) ==> marks@.contains_key(x),
                forall|x: u64| #[trigger]
                    marks@.contains_key(x) ==> result@.contains(x) || has_entry(stack@, (true, x)),
                // closing entries carry discovered, unemitted nodes, one
                // entry per node
                forall|k: int|
                    0 <= k < stack@.len() && (#[trigger] stack@[k]).0 ==> marks@.contains_key(
                        stack@[k].1,
                    ) && !result@.contains(stack@[k].1),
                forall|k1: int, k2: int|
                    0 <= k1 < k2 < stack@.len() && (#[trigger] stack@[k1]).0 && (
                    #[trigger] stack@[k2]).0 ==> stack@[k1].1 != stack@[k2].1,
                // everything on the stack or discovered is reachable
                forall|k: int|
                    0 <= k < stack@.len() ==> reachable(g, roots@, (#[trigger] stack@[k]).1),
                forall|x: u64| #[trigger] marks@.contains_key(x) ==> reachable(g, roots@, x),
                // successors of discovered nodes are discovered or pending
                forall|x: u64, j: int|
                    marks@.contains_key(x) && g.contains_key(x) && 0 <= j < g[x]@.len()
                        ==> marks@.contains_key(#[trigger] g[x]@[j]) || has_entry(
                        stack@,
                        (false, g[x]@[j]),
                    ),
                // the root of this round is discovered or pending
                marks@.contains_key(root) || has_entry(stack@, (false, root)),
                // closing entries sit below their descendants, with every
                // successor discovered or pending above, so a postorder
                // emission follows all of its successors
                postorder ==> stack_chain(g, stack@),
                postorder ==> open_succs_covered(g, stack@, marks@),
                postorder && acyclic_reachable(g, roots@) ==> reverse_topological(g, result@),
            ensures
                g == graph@,
                result@.no_duplicates(),
                forall|i: int| 0 <= i < ri ==> result@.contains(#[trigger] roots@[i]),
                forall|x: u64| #[trigger] result@.contains(x) <==> marks@.contains_key(x),
                marks@.contains_key(root),
                forall|x: u64| #[trigger] marks@.contains_key(x) ==> reachable(g, roots@, x),
                forall|x: u64, j: int|
                    marks@.contains_key(x) && g.contains_key(x) && 0 <= j < g[x]@.len()
                        ==> marks@.contains_key(#[trigger] g[x]@[j]),
                postorder && acyclic_reachable(g, roots@) ==> reverse_topological(g, result@),
            decreases usize::MAX + 1 - marks@.dom().len(), stack@.len(),
        {
            proof {
                assert(vstd::std_specs::hash::spec_hash_map_len(&marks) == marks@.dom().len());
            }
            let ghost entry_stack = stack@;
            let entry = match stack.pop() {
                Some(e) => e,
                None => {
                    proof {
                        assert(stack@.len() == 0);
                        assert forall|x: u64| #[trigger]
                            marks@.contains_key(x) implies result@.contains(x) by {
                            assert(!has_entry(stack@, (true, x)));
                        }
                    }
                    break;
                },
            };
            let ghost after_pop = stack@;
            proof {
                assert(entry == entry_stack.last());
                assert(after_pop =~= entry_stack.drop_last());
            }
            let (closing, node) = entry;
            if closing {
                let ghost old_result = result@;
                proof {
                    assert(entry_stack[entry_stack.len() - 1] == (true, node));
                    assert(!old_result.contains(node));
                }
                result.push(node);
                proof {
                    assert(result@ == old_result.push(node));
                    assert(result@[result@.len() - 1] == node);
                    assert(result@.contains(node));
                    assert(result@.no_duplicates());
                    assert forall|x: u64| #[trigger]
                        old_result.contains(x) implies result@.contains(x) by {
                        let idx = choose|idx: int| 0 <= idx < old_result.len() && old_result[idx] == x;
                        assert(result@[idx] == x);
                    }
                    assert forall|x: u64| #[trigger]
                        marks@.contains_key(x) implies result@.contains(x) || has_entry(
                        stack@,
                        (true, x),
                    ) by {
                        if x != node && !old_result.contains(x) {
                            lemma_has_entry_pop(entry_stack, (true, x));
                        }
                    }
                    assert forall|x: u64, j: int|
                        marks@.contains_key(x) && g.contains_key(x) && 0 <= j < g[x]@.len()
                            && !marks@.contains_key(#[trigger] g[x]@[j]) implies has_entry(
                        stack@,
                        (false, g[x]@[j]),
                    ) by {
                        lemma_has_entry_pop(entry_stack, (false, g[x]@[j]));
                    }
                    if !marks@.contains_key(root) {
                        lemma_has_entry_pop(entry_stack, (false, root));
                    }
                    assert forall|k: int|
                        0 <= k < stack@.len() && (#[trigger] stack@[k]).0 implies
                        marks@.contains_key(stack@[k].1) && !result@.contains(stack@[k].1) by {
                        assert(entry_stack[k] == stack@[k]);
                        assert(stack@[k].1 != node);
                        if result@.contains(stack@[k].1) {
                            let idx = choose|idx: int|
                                0 <= idx < result@.len() && result@[idx] == stack@[k].1;
                            assert(old_result[idx] == stack@[k].1);
                            assert(old_result.contains(stack@[k].1));
                        }
                    }
                    if postorder {
                        assert forall|k1: int, k2: int|
                            0 <= k1 < k2 < stack@.len() && (#[trigger] stack@[k1]).0 implies
                            reaches(g, stack@[k1].1, (#[trigger] stack@[k2]).1) by {
                            assert(stack@[k1] == entry_stack[k1]);
                            assert(stack@[k2] == entry_stack[k2]);
                        }
                        assert(stack_chain(g, stack@));
                        assert forall|k: int, j: int|
                            #![trigger g[stack@[k].1]@[j]]
                            0 <= k < stack@.len() && stack@[k].0 && g.contains_key(stack@[k].1)
                                && 0 <= j < g[stack@[k].1]@.len() implies marks@.contains_key(
                            g[stack@[k].1]@[j],
                        ) || exists|k2: int|
                            k < k2 < stack@.len() && #[trigger] stack@[k2] == (
                            false,
                            g[stack@[k].1]@[j],
                        ) by {
                            assert(stack@[k] == entry_stack[k]);
                            let v = g[entry_stack[k].1]@[j];
                            if !marks@.contains_key(v) {
                                let k2 = choose|k2: int|
                                    k < k2 < entry_stack.len() && #[trigger] entry_stack[k2] == (
                                    false,
                                    v,
                                );
                                assert(entry_stack[entry_stack.len() - 1] == (true, node));
                                assert(k2 < entry_stack.len() - 1);
                                assert(stack@[k2] == (false, v));
                            }
                        }
                        assert(open_succs_covered(g, stack@, marks@));
                        if acyclic_reachable(g, roots@) {
                            let n_i = old_result.len() as int;
                            assert(result@[n_i] == node);
                            assert(reverse_topological(g, result@)) by {
                                assert forall|i: int, j: int|
                                #![trigger g[result@[i]]@[j]]
                                0 <= i < result@.len() && g.contains_key(result@[i]) && 0 <= j
                                    < g[result@[i]]@.len() implies listed_before(
                                result@,
                                i,
                                g[result@[i]]@[j],
                            ) by {
                                if i < n_i {
                                    assert(result@[i] == old_result[i]);
                                    assert(g[old_result[i]]@[j] == g[result@[i]]@[j]);
                                    let gi2 = g[old_result[i]]@[j];
                                    assert(listed_before(old_result, i, gi2));
                                    let i2 = choose|i2: int|
                                        0 <= i2 < i && #[trigger] old_result[i2] == gi2;
                                    assert(result@[i2] == g[result@[i]]@[j]);
                                    assert(listed_before(result@, i, g[result@[i]]@[j]));
                                } else {
                                    assert(result@[i] == node);
                                    let v = g[node]@[j];
                                    // the node's own coverage: its successors
                                    // cannot be pending above the stack top
                                    assert(entry_stack[entry_stack.len() - 1] == (true, node));
                                    assert(g[entry_stack[entry_stack.len() - 1].1]@[j] == v);
                                    if !marks@.contains_key(v) {
                                        let k2 = choose|k2: int|
                                            entry_stack.len() - 1 < k2 < entry_stack.len()
                                                && #[trigger] entry_stack[k2] == (false, v);
                                        assert(false);
                                    }
                                    if !old_result.contains(v) {
                                        assert(has_entry(entry_stack, (true, v)));
                                        let kv = choose|kv: int|
                                            0 <= kv < entry_stack.len() && entry_stack[kv] == (
                                            true,
                                            v,
                                            );
                                        assert(g[node]@.contains(v));
                                        assert(reachable(g, roots@, node));
                                        if v == node {
                                            lemma_reaches_step(g, node, v);
                                            assert(false);
                                        } else {
                                            assert(kv < entry_stack.len() - 1);
                                            assert(reaches(g, v, node));
                                            assert(false);
                                        }
                                    }
                                    let i2 = choose|i2: int|
                                        0 <= i2 < old_result.len() && old_result[i2] == v;
                                    assert(result@[i2] == v);
                                    assert(listed_before(result@, i, g[result@[i]]@[j]));
                                }
                                }
                            }
                        }
                    }
                }
            } else {
                if !marks.contains_key(&node) {
                    let ghost old_marks = marks@;
                    marks.insert(node, true);
                    proof {
                        assert(old_marks.dom().finite());
                        assert(marks@.dom() =~= old_marks.dom().insert(node));
                    }
                    if !postorder {
                        let ghost old_result = result@;
                        proof {
                            assert(!old_result.contains(node));
                        }
                        result.push(node);
                        proof {
                            assert(result@ == old_result.push(node));
                            assert(result@.no_duplicates());
                            assert(result@[result@.len() - 1] == node);
                            assert(result@.contains(node));
                            assert forall|x: u64| #[trigger]
                                result@.contains(x) implies marks@.contains_key(x) by {
                                if x != node {
                                    let idx = choose|idx: int|
                                        0 <= idx < result@.len() && result@[idx] == x;
                                    assert(old_result[idx] == x);
                                    assert(old_result.contains(x));
                                }
                            }
                            assert forall|x: u64| #[trigger]
                                old_result.contains(x) implies result@.contains(x) by {
                                let idx = choose|idx: int|
                                    0 <= idx < old_result.len() && old_result[idx] == x;
                                assert(result@[idx] == x);
                            }
                        }
                    } else {
                        stack.push((true, node));
                    }
                    let ghost base = stack@;
                    if let Some(succs) = graph.get(&node) {
                        let mut j: usize = 0;
                        while j < succs.len()
                            invariant
                                g.contains_key(node),
                                succs@ == g[node]@,
                                0 <= j <= succs@.len(),
                                stack@.len() == base.len() + j,
                                forall|k: int| 0 <= k < base.len() ==> stack@[k] == base[k],
                                forall|t: int|
                                    0 <= t < j ==> stack@[base.len() + t] == (
                                        false,
                                        #[trigger] g[node]@[t],
                                    ),
                            decreases succs@.len() - j,
                        {
                            let s = succs[j];
                            stack.push((false, s));
                            j = j + 1;
                        }
                    }
                    proof {
                        let shrunk = after_pop;
                        if postorder {
                            assert(base == shrunk.push((true, node)));
                        } else {
                            assert(base == shrunk);
                        }
                        assert(base.len() >= shrunk.len());
                        assert forall|k: int| 0 <= k < shrunk.len() implies stack@[k] == shrunk[k] by {
                            assert(stack@[k] == base[k]);
                            assert(base[k] == shrunk[k]);
                        }
                        if postorder {
                            assert(base[base.len() - 1] == (true, node));
                            assert(stack@[base.len() - 1] == (true, node));
                            assert(has_entry(stack@, (true, node)));
                        }
                        assert forall|x: u64| #[trigger]
                            marks@.contains_key(x) implies result@.contains(x) || has_entry(
                            stack@,
                            (true, x),
                        ) by {
                            if x != node && !result@.contains(x) {
                                lemma_has_entry_pop(entry_stack, (true, x));
                                lemma_has_entry_extend(shrunk, stack@, (true, x));
                            }
                        }
                        assert forall|x: u64, j2: int|
                            marks@.contains_key(x) && g.contains_key(x) && 0 <= j2 < g[x]@.len()
                                && !marks@.contains_key(#[trigger] g[x]@[j2]) implies has_entry(
                            stack@,
                            (false, g[x]@[j2]),
                        ) by {
                            if x == node {
                                assert(stack@[base.len() + j2] == (false, g[node]@[j2]));
                            } else {
                                lemma_has_entry_pop(entry_stack, (false, g[x]@[j2]));
                                lemma_has_entry_extend(shrunk, stack@, (false, g[x]@[j2]));
                            }
                        }
                        assert forall|k: int|
                            0 <= k < stack@.len() implies reachable(
                            g,
                            roots@,
                            (#[trigger] stack@[k]).1,
                        ) by {
                            if k < base.len() {
                                if k < shrunk.len() {
                                    assert(stack@[k] == shrunk[k]);
                                    assert(shrunk[k] == entry_stack[k]);
                                } else if postorder && k == base.len() - 1 {
                                    assert(stack@[k].1 == node);
                                }
                            } else {
                                assert(stack@[k] == (false, g[node]@[k - base.len()]));
                                assert(g[node]@.contains(g[node]@[k - base.len()]));
                                lemma_reachable_step(g, roots@, node, stack@[k].1);
                            }
                        }
                        if !marks@.contains_key(root) {
                            assert(root != node);
                            lemma_has_entry_pop(entry_stack, (false, root));
                            lemma_has_entry_extend(shrunk, stack@, (false, root));
                        }
                        assert forall|k: int|
                            0 <= k < stack@.len() && (#[trigger] stack@[k]).0 implies
                            marks@.contains_key(stack@[k].1) && !result@.contains(stack@[k].1) by {
                            if k < shrunk.len() {
                                assert(stack@[k] == shrunk[k]);
                                assert(shrunk[k] == entry_stack[k]);
                                assert(entry_stack[k].0);
                                assert(old_marks.contains_key(entry_stack[k].1));
                                assert(!old_marks.contains_key(node));
                                assert(stack@[k].1 != node);
                            } else if postorder && k == base.len() - 1 {
                                assert(stack@[k].1 == node);
                            } else {
                                assert(k >= base.len());
                                assert(stack@[k] == (false, g[node]@[k - base.len()]));
                                assert(!stack@[k].0);
                            }
                        }
                        assert forall|k1: int, k2: int|
                            0 <= k1 < k2 < stack@.len() && (#[trigger] stack@[k1]).0 && (
                            #[trigger] stack@[k2]).0 implies stack@[k1].1 != stack@[k2].1 by {
                            if k2 >= base.len() {
                                assert(stack@[k2] == (false, g[node]@[k2 - base.len()]));
                                assert(!stack@[k2].0);
                            } else if postorder && k2 == base.len() - 1 {
                                assert(k1 < shrunk.len());
                                assert(stack@[k1] == base[k1]);
                                assert(base[k1] == shrunk[k1]);
                                assert(shrunk[k1] == entry_stack[k1]);
                                assert(entry_stack[k1].0);
                                assert(old_marks.contains_key(entry_stack[k1].1));
                                assert(!old_marks.contains_key(node));
                                assert(stack@[k2].1 == node);
                            } else {
                                assert(k1 < k2 < shrunk.len());
                                assert(stack@[k1] == base[k1] && base[k1] == shrunk[k1]);
                                assert(stack@[k2] == base[k2] && base[k2] == shrunk[k2]);
                                assert(shrunk[k1] == entry_stack[k1]);
                                assert(shrunk[k2] == entry_stack[k2]);
                            }
                        }
                        if postorder {
                            assert(base == shrunk.push((true, node)));
                            assert(entry_stack[entry_stack.len() - 1] == (false, node));
                            assert forall|k1: int, k2: int|
                                0 <= k1 < k2 < stack@.len() && (#[trigger] stack@[k1]).0 implies
                                reaches(g, stack@[k1].1, (#[trigger] stack@[k2]).1) by {
                                if k1 < shrunk.len() {
                                    assert(stack@[k1] == base[k1]);
                                    assert(base[k1] == shrunk[k1]);
                                    assert(shrunk[k1] == entry_stack[k1]);
                                    assert(entry_stack[k1].0);
                                    assert(k1 < entry_stack.len() - 1);
                                    assert(reaches(g, entry_stack[k1].1, node));
                                    if k2 < shrunk.len() {
                                        assert(stack@[k2] == base[k2]);
                                        assert(base[k2] == shrunk[k2]);
                                        assert(shrunk[k2] == entry_stack[k2]);
                                    } else if k2 == base.len() - 1 {
                                        assert(stack@[k2] == base[k2]);
                                        assert(stack@[k2].1 == node);
                                    } else {
                                        assert(k2 >= base.len());
                                        assert(stack@[k2] == (false, g[node]@[k2 - base.len()]));
                                        assert(g[node]@.contains(g[node]@[k2 - base.len()]));
                                        lemma_reaches_step(g, node, g[node]@[k2 - base.len()]);
                                        lemma_reaches_trans(
                                            g,
                                            entry_stack[k1].1,
                                            node,
                                            g[node]@[k2 - base.len()],
                                        );
                                    }
                                } else {
                                    if k1 >= base.len() {
                                        assert(stack@[k1] == (false, g[node]@[k1 - base.len()]));
                                        assert(false);
                                    }
                                    assert(k1 == base.len() - 1);
                                    assert(stack@[k1] == base[k1]);
                                    assert(stack@[k1].1 == node);
                                    assert(k2 >= base.len());
                                    assert(stack@[k2] == (false, g[node]@[k2 - base.len()]));
                                    assert(g[node]@.contains(g[node]@[k2 - base.len()]));
                                    lemma_reaches_step(g, node, g[node]@[k2 - base.len()]);
                                }
                            }
                            assert(stack_chain(g, stack@));
                            assert forall|k: int, j2: int|
                                #![trigger g[stack@[k].1]@[j2]]
                                0 <= k < stack@.len() && stack@[k].0 && g.contains_key(
                                    stack@[k].1,
                                ) && 0 <= j2 < g[stack@[k].1]@.len() implies marks@.contains_key(
                                g[stack@[k].1]@[j2],
                            ) || exists|k2: int|
                                k < k2 < stack@.len() && #[trigger] stack@[k2] == (
                                false,
                                g[stack@[k].1]@[j2],
                            ) by {
                                if k >= base.len() {
                                    assert(stack@[k] == (false, g[node]@[k - base.len()]));
                                    assert(false);
                                } else if k == base.len() - 1 {
                                    assert(stack@[k] == base[k]);
                                    assert(stack@[k].1 == node);
                                    assert(stack@[base.len() + j2] == (false, g[node]@[j2]));
                                } else {
                                    assert(stack@[k] == base[k]);
                                    assert(base[k] == shrunk[k]);
                                    assert(shrunk[k] == entry_stack[k]);
                                    let v = g[entry_stack[k].1]@[j2];
                                    if !old_marks.contains_key(v) {
                                        let k2 = choose|k2: int|
                                            k < k2 < entry_stack.len() && #[trigger] entry_stack[k2]
                                                == (false, v);
                                        if k2 == entry_stack.len() - 1 {
                                            assert(v == node);
                                            assert(marks@.contains_key(node));
                                        } else {
                                            assert(stack@[k2] == base[k2]);
                                            assert(base[k2] == shrunk[k2]);
                                            assert(shrunk[k2] == entry_stack[k2]);
                                        }
                                    } else {
                                        assert(marks@.contains_key(v));
                                    }
                                }
                            }
                            assert(open_succs_covered(g, stack@, marks@));
                        }
                    }
                } else {
                    proof {
                        assert forall|x: u64| #[trigger]
                            marks@.contains_key(x) && !result@.contains(x) implies has_entry(
                            stack@,
                            (true, x),
                        ) by {
                            lemma_has_entry_pop(entry_stack, (true, x));
                        }
                        assert forall|x: u64, j: int|
                            marks@.contains_key(x) && g.contains_key(x) && 0 <= j < g[x]@.len()
                                && !marks@.contains_key(#[trigger] g[x]@[j]) implies has_entry(
                            stack@,
                            (false, g[x]@[j]),
                        ) by {
                            lemma_has_entry_pop(entry_stack, (false, g[x]@[j]));
                        }
                        if !marks@.contains_key(root) {
                            lemma_has_entry_pop(entry_stack, (false, root));
                        }
                        if postorder {
                            assert forall|k1: int, k2: int|
                                0 <= k1 < k2 < stack@.len() && (#[trigger] stack@[k1]).0 implies
                                reaches(g, stack@[k1].1, (#[trigger] stack@[k2]).1) by {
                                assert(stack@[k1] == entry_stack[k1]);
                                assert(stack@[k2] == entry_stack[k2]);
                            }
                            assert(stack_chain(g, stack@));
                            assert forall|k: int, j: int|
                                #![trigger g[stack@[k].1]@[j]]
                                0 <= k < stack@.len() && stack@[k].0 && g.contains_key(
                                    stack@[k].1,
                                ) && 0 <= j < g[stack@[k].1]@.len() implies marks@.contains_key(
                                g[stack@[k].1]@[j],
                            ) || exists|k2: int|
                                k < k2 < stack@.len() && #[trigger] stack@[k2] == (
                                false,
                                g[stack@[k].1]@[j],
                            ) by {
                                assert(stack@[k] == entry_stack[k]);
                                let v = g[entry_stack[k].1]@[j];
                                if !marks@.contains_key(v) {
                                    let k2 = choose|k2: int|
                                        k < k2 < entry_stack.len() && #[trigger] entry_stack[k2]
                                            == (false, v);
                                    if k2 == entry_stack.len() - 1 {
                                        assert(v == node);
                                        assert(false);
                                    }
                                    assert(stack@[k2] == entry_stack[k2]);
                                }
                            }
                            assert(open_succs_covered(g, stack@, marks@));
                        }
                    }
                }
            }
        }
        ri = ri + 1;
    }
    result
}

} // verus!
