//! The model builder and runner.
//!
//! The builder wires registered components into a dependency graph: an
//! edge `A -> B` says that `A` produces a variable `B` requires.  A
//! sentinel initial node (node `0`) links to every component without
//! dependencies, so a breadth-first traversal from it reaches the whole
//! graph.  Cycles other than self-loops are rejected.  The runner then
//! advances the model step by step: for each component in breadth-first
//! order it extracts an input state, solves the step, and writes the
//! outputs at the next time index.

use crate::component::{
    clone_def, contains_key, input_defs, inputs, is_output_def, lemma_first_index_in_range,
    lemma_merge_all_inv, merge_all, output_defs, outputs, state_inv, value_of, Component,
    InputState, OutputState, RequirementDefinition, RequirementType, State,
};
use crate::errors::{RSCMError, RSCMResult};
use crate::interpolate::{Interp1dLinearSpline, InterpolationStrategy};
use crate::scalar::{Scalar, MISSING_RAW};
use crate::timeseries::{TimeAxis, Timeseries};
use crate::timeseries_collection::{contains_name, index_of_name, TimeseriesCollection, TimeseriesItem, VariableType};
use vstd::prelude::*;
use vstd::string::StringExecFns;

verus! {

/// A named, unit-tagged variable gathered from the components'
/// requirement declarations.
pub struct VariableDefinition {
    pub name: String,
    pub unit: String,
}

impl VariableDefinition {
    pub fn from_requirement_definition(definition: &RequirementDefinition) -> (r:
        VariableDefinition)
        ensures
            r.name == definition.name,
            r.unit == definition.unit,
    {
        VariableDefinition { name: definition.name.clone(), unit: definition.unit.clone() }
    }
}

/// Some gathered definition carries this name.
pub open spec fn contains_def(defs: Seq<VariableDefinition>, name: Seq<char>) -> bool {
    exists|i: int| 0 <= i < defs.len() && (#[trigger] defs[i]).name@ == name
}

/// The position of the definition carrying `name`; unique while names
/// are unique.
pub open spec fn def_index_of(defs: Seq<VariableDefinition>, name: Seq<char>) -> int {
    choose|i: int| 0 <= i < defs.len() && (#[trigger] defs[i]).name@ == name
}

/// No two gathered definitions share a name.
pub open spec fn defs_unique(defs: Seq<VariableDefinition>) -> bool {
    forall|i: int, j: int|
        #![trigger defs[i], defs[j]]
        0 <= i < j < defs.len() ==> defs[i].name@ != defs[j].name@
}

/// Checks a requirement against the definitions gathered so far: a new
/// name is recorded; a known name must carry the same unit, else the
/// build fails with `UnitMismatch`.
pub fn verify_definition(
    definitions: &mut Vec<VariableDefinition>,
    definition: &RequirementDefinition,
) -> (r: RSCMResult<()>)
    requires
        defs_unique(old(definitions)@),
    ensures
        defs_unique(final(definitions)@),
        !contains_def(old(definitions)@, definition.name@) ==> r is Ok && final(definitions)@
            == old(definitions)@.push(
            VariableDefinition { name: definition.name, unit: definition.unit },
        ),
        contains_def(old(definitions)@, definition.name@) ==> {
            let i = def_index_of(old(definitions)@, definition.name@);
            &&& final(definitions)@ == old(definitions)@
            &&& (r is Ok <==> old(definitions)@[i].unit@ == definition.unit@)
            &&& (r matches Err(e) ==> e == (RSCMError::UnitMismatch {
                name: definition.name,
                expected: old(definitions)@[i].unit,
                found: definition.unit,
            }))
        },
{
    let n = definitions.len();
    let mut i: usize = 0;
    while i < n
        invariant
            i <= n,
            n == definitions@.len(),
            defs_unique(definitions@),
            forall|j: int| 0 <= j < i ==> (#[trigger] definitions@[j]).name@ != definition.name@,
        decreases n - i,
    {
        if definitions[i].name.eq(&definition.name) {
            proof {
                lemma_def_found_is_index(definitions@, definition.name@, i as int);
            }
            if definitions[i].unit.eq(&definition.unit) {
                return Ok(());
            } else {
                return Err(
                    RSCMError::UnitMismatch {
                        name: definition.name.clone(),
                        expected: definitions[i].unit.clone(),
                        found: definition.unit.clone(),
                    },
                );
            }
        }
        i = i + 1;
    }
    let ghost before = definitions@;
    definitions.push(VariableDefinition::from_requirement_definition(definition));
    proof {
        assert forall|a: int, b: int|
            #![trigger definitions@[a], definitions@[b]]
            0 <= a < b < definitions@.len() implies definitions@[a].name@
            != definitions@[b].name@ by {
            if b == definitions@.len() - 1 {
                assert(before[a].name@ != definition.name@);
            }
        }
    }
    Ok(())
}

/// With unique names, a position whose definition carries `name` is the
/// chosen `def_index_of`.
proof fn lemma_def_found_is_index(defs: Seq<VariableDefinition>, name: Seq<char>, i: int)
    requires
        defs_unique(defs),
        0 <= i < defs.len(),
        defs[i].name@ == name,
    ensures
        def_index_of(defs, name) == i,
        contains_def(defs, name),
{
    assert(contains_def(defs, name));
    let j = def_index_of(defs, name);
    assert(0 <= j < defs.len() && defs[j].name@ == name);
    if j != i {
        assert(defs[i].name@ != defs[j].name@);
    }
}

/// One dependency link: the component at node `from` produces a variable
/// that the component at node `to` requires.  Links from the initial
/// node carry no requirement.
pub struct GraphEdge {
    pub from: usize,
    pub to: usize,
    pub requirement: Option<RequirementDefinition>,
}

/// Every edge endpoint is a node.
pub open spec fn edges_bounded(edges: Seq<GraphEdge>, n: int) -> bool {
    forall|k: int| 0 <= k < edges.len() ==> (#[trigger] edges[k]).from < n && edges[k].to < n
}

/// `pos` ranks the nodes so that every non-self edge goes up in rank.
pub open spec fn topo_order(edges: Seq<GraphEdge>, pos: Seq<int>) -> bool {
    &&& forall|i: int| 0 <= i < pos.len() ==> 0 <= #[trigger] pos[i] < pos.len()
    &&& forall|k: int|
        0 <= k < edges.len() && (#[trigger] edges[k]).from != edges[k].to ==> pos[edges[k].from
            as int] < pos[edges[k].to as int]
}

/// The graph has no cycle apart from self-loops: some rank respects
/// every non-self edge.
pub open spec fn acyclic_except_self(n: int, edges: Seq<GraphEdge>) -> bool {
    exists|pos: Seq<int>| pos.len() == n && #[trigger] topo_order(edges, pos)
}

/// How many entries are true.
pub open spec fn count_true(s: Seq<bool>) -> int
    decreases s.len(),
{
    if s.len() == 0 {
        0
    } else {
        count_true(s.drop_last()) + if s.last() {
            1int
        } else {
            0int
        }
    }
}

proof fn lemma_count_true_bound(s: Seq<bool>)
    ensures
        0 <= count_true(s) <= s.len(),
    decreases s.len(),
{
    if s.len() > 0 {
        lemma_count_true_bound(s.drop_last());
    }
}

proof fn lemma_count_true_update_true(s: Seq<bool>, i: int)
    requires
        0 <= i < s.len(),
        !s[i],
    ensures
        count_true(s.update(i, true)) == count_true(s) + 1,
    decreases s.len(),
{
    if i == s.len() - 1 {
        assert(s.update(i, true).drop_last() =~= s.drop_last());
    } else {
        assert(s.update(i, true).drop_last() =~= s.drop_last().update(i, true));
        lemma_count_true_update_true(s.drop_last(), i);
    }
}

proof fn lemma_count_true_full(s: Seq<bool>)
    requires
        count_true(s) == s.len(),
    ensures
        forall|i: int| 0 <= i < s.len() ==> s[i],
    decreases s.len(),
{
    if s.len() > 0 {
        lemma_count_true_bound(s.drop_last());
        lemma_count_true_full(s.drop_last());
        assert forall|i: int| 0 <= i < s.len() implies s[i] by {
            if i < s.len() - 1 {
                assert(s.drop_last()[i]);
            }
        }
    }
}

proof fn lemma_count_true_exists_false(s: Seq<bool>)
    requires
        count_true(s) < s.len(),
    ensures
        exists|i: int| 0 <= i < s.len() && !s[i],
    decreases s.len(),
{
    if s.len() > 0 {
        if s.last() {
            lemma_count_true_exists_false(s.drop_last());
            let i = choose|i: int| 0 <= i < s.drop_last().len() && !s.drop_last()[i];
            assert(!s[i]);
        } else {
            assert(!s[s.len() - 1]);
        }
    }
}

/// How many non-self edges from unprocessed nodes lead into `u`.
pub open spec fn count_incoming(edges: Seq<GraphEdge>, processed: Seq<bool>, u: int) -> int
    decreases edges.len(),
{
    if edges.len() == 0 {
        0
    } else {
        count_incoming(edges.drop_last(), processed, u) + {
            let e = edges.last();
            if e.to == u && e.from != e.to && !processed[e.from as int] {
                1int
            } else {
                0int
            }
        }
    }
}

proof fn lemma_count_incoming_nonneg(edges: Seq<GraphEdge>, processed: Seq<bool>, u: int)
    ensures
        count_incoming(edges, processed, u) >= 0,
    decreases edges.len(),
{
    if edges.len() > 0 {
        lemma_count_incoming_nonneg(edges.drop_last(), processed, u);
    }
}

proof fn lemma_count_incoming_zero(edges: Seq<GraphEdge>, processed: Seq<bool>, u: int)
    requires
        count_incoming(edges, processed, u) == 0,
    ensures
        forall|k: int|
            0 <= k < edges.len() ==> !((#[trigger] edges[k]).to == u && edges[k].from
                != edges[k].to && !processed[edges[k].from as int]),
    decreases edges.len(),
{
    if edges.len() > 0 {
        lemma_count_incoming_nonneg(edges.drop_last(), processed, u);
        lemma_count_incoming_zero(edges.drop_last(), processed, u);
        assert forall|k: int|
            0 <= k < edges.len() implies !((#[trigger] edges[k]).to == u && edges[k].from
            != edges[k].to && !processed[edges[k].from as int]) by {
            if k < edges.len() - 1 {
                assert(edges.drop_last()[k] == edges[k]);
            }
        }
    }
}

proof fn lemma_count_incoming_pos(edges: Seq<GraphEdge>, processed: Seq<bool>, u: int)
    requires
        count_incoming(edges, processed, u) != 0,
    ensures
        exists|k: int|
            0 <= k < edges.len() && (#[trigger] edges[k]).to == u && edges[k].from != edges[k].to
                && !processed[edges[k].from as int],
    decreases edges.len(),
{
    if edges.len() > 0 {
        let e = edges.last();
        if e.to == u && e.from != e.to && !processed[e.from as int] {
            assert(edges[edges.len() - 1].to == u);
        } else {
            lemma_count_incoming_pos(edges.drop_last(), processed, u);
            let k = choose|k: int|
                0 <= k < edges.drop_last().len() && (#[trigger] edges.drop_last()[k]).to == u
                    && edges.drop_last()[k].from != edges.drop_last()[k].to
                    && !processed[edges.drop_last()[k].from as int];
            assert(edges[k] == edges.drop_last()[k]);
            assert(edges[k].to == u && edges[k].from != edges[k].to && !processed[edges[k].from
                as int]);
        }
    }
}

/// Every unprocessed node keeps a non-self edge from an unprocessed
/// predecessor.  Kept opaque so the quantifier alternation only unfolds
/// inside the lemmas that walk it.
#[verifier::opaque]
pub open spec fn stalled_state(edges: Seq<GraphEdge>, processed: Seq<bool>) -> bool {
    forall|v: int|
        0 <= v < processed.len() && !processed[v] ==> exists|k: int|
            0 <= k < edges.len() && (#[trigger] edges[k]).to == v && edges[k].from
                != edges[k].to && !processed[edges[k].from as int]
}

/// In a stalled state — every unprocessed node keeps an unprocessed
/// non-self predecessor — every bounded rank is broken by some edge:
/// walking predecessors from any unprocessed node must revisit a rank.
proof fn lemma_stalled_breaks_order(
    edges: Seq<GraphEdge>,
    processed: Seq<bool>,
    pos: Seq<int>,
    u: int,
)
    requires
        pos.len() == processed.len(),
        forall|i: int| 0 <= i < pos.len() ==> 0 <= #[trigger] pos[i] < pos.len(),
        edges_bounded(edges, pos.len() as int),
        stalled_state(edges, processed),
        0 <= u < processed.len(),
        !processed[u],
    ensures
        exists|k: int|
            0 <= k < edges.len() && (#[trigger] edges[k]).from != edges[k].to && pos[edges[k].from
                as int] >= pos[edges[k].to as int],
    decreases pos[u],
{
    reveal(stalled_state);
    let k = choose|k: int|
        0 <= k < edges.len() && (#[trigger] edges[k]).to == u && edges[k].from != edges[k].to
            && !processed[edges[k].from as int];
    let a = edges[k].from as int;
    if pos[a] >= pos[u] {
        assert(edges[k].from != edges[k].to && pos[edges[k].from as int] >= pos[edges[k].to
            as int]);
    } else {
        lemma_stalled_breaks_order(edges, processed, pos, a);
    }
}

/// Retiring a node with no unprocessed predecessors preserves the rank
/// discipline: edges into processed nodes keep coming from processed
/// nodes of lower rank.
proof fn lemma_retire_node(
    edges: Seq<GraphEdge>,
    old_processed: Seq<bool>,
    new_processed: Seq<bool>,
    old_pos: Seq<usize>,
    new_pos: Seq<usize>,
    cand: int,
    count: usize,
)
    requires
        old_processed.len() == old_pos.len(),
        new_processed == old_processed.update(cand, true),
        new_pos == old_pos.update(cand, count),
        0 <= cand < old_processed.len(),
        !old_processed[cand],
        edges_bounded(edges, old_processed.len() as int),
        forall|k: int|
            0 <= k < edges.len() ==> !((#[trigger] edges[k]).to == cand && edges[k].from
                != edges[k].to && !old_processed[edges[k].from as int]),
        forall|v: int|
            0 <= v < old_processed.len() && old_processed[v] ==> (#[trigger] old_pos[v]) < count,
        forall|k: int|
            0 <= k < edges.len() && (#[trigger] edges[k]).from != edges[k].to
                && old_processed[edges[k].to as int] ==> old_processed[edges[k].from as int]
                && old_pos[edges[k].from as int] < old_pos[edges[k].to as int],
    ensures
        forall|v: int|
            0 <= v < new_processed.len() && new_processed[v] ==> (#[trigger] new_pos[v]) < count
                + 1,
        forall|k: int|
            0 <= k < edges.len() && (#[trigger] edges[k]).from != edges[k].to
                && new_processed[edges[k].to as int] ==> new_processed[edges[k].from as int]
                && new_pos[edges[k].from as int] < new_pos[edges[k].to as int],
{
    assert forall|k: int|
        0 <= k < edges.len() && (#[trigger] edges[k]).from != edges[k].to
            && new_processed[edges[k].to as int] implies new_processed[edges[k].from as int]
        && new_pos[edges[k].from as int] < new_pos[edges[k].to as int] by {
        let e = edges[k];
        if e.to as int == cand {
            assert(old_processed[e.from as int]);
            assert(e.from as int != cand);
        } else {
            assert(old_processed[e.to as int]);
            assert(old_processed[e.from as int]);
            assert(e.from as int != cand);
        }
    }
}

/// A stalled state with nodes left over means the graph is cyclic:
/// every unprocessed node keeps an unprocessed predecessor, so no rank
/// can respect the edges.
proof fn lemma_stalled_shape(edges: Seq<GraphEdge>, processed: Seq<bool>, n: int)
    requires
        processed.len() == n,
        forall|v: int|
            0 <= v < n && !processed[v] ==> count_incoming(edges, processed, v) != 0,
    ensures
        stalled_state(edges, processed),
{
    reveal(stalled_state);
    assert forall|v: int| 0 <= v < processed.len() && !processed[v] implies exists|k: int|
        0 <= k < edges.len() && (#[trigger] edges[k]).to == v && edges[k].from != edges[k].to
            && !processed[edges[k].from as int] by {
        assert(count_incoming(edges, processed, v) != 0);
        lemma_count_incoming_pos(edges, processed, v);
    }
}

proof fn lemma_stalled_graph_cyclic(edges: Seq<GraphEdge>, processed: Seq<bool>, n: int)
    requires
        processed.len() == n,
        edges_bounded(edges, n),
        count_true(processed) < n,
        stalled_state(edges, processed),
    ensures
        !acyclic_except_self(n, edges),
{
    lemma_count_true_exists_false(processed);
    let u0 = choose|v: int| 0 <= v < processed.len() && !processed[v];
    if acyclic_except_self(n, edges) {
        let p = choose|p: Seq<int>| p.len() == n && #[trigger] topo_order(edges, p);
        lemma_stalled_breaks_order(edges, processed, p, u0);
    }
}

/// A rank assigned while retiring every node witnesses acyclicity.
proof fn lemma_complete_order(edges: Seq<GraphEdge>, processed: Seq<bool>, pos: Seq<usize>, n: int)
    requires
        processed.len() == n,
        pos.len() == n,
        n >= 0,
        edges_bounded(edges, n),
        count_true(processed) == n,
        forall|v: int| 0 <= v < n && processed[v] ==> (#[trigger] pos[v]) < n,
        forall|k: int|
            0 <= k < edges.len() && (#[trigger] edges[k]).from != edges[k].to
                && processed[edges[k].to as int] ==> processed[edges[k].from as int]
                && pos[edges[k].from as int] < pos[edges[k].to as int],
    ensures
        acyclic_except_self(n, edges),
{
    lemma_count_true_full(processed);
    let w = Seq::new(n as nat, |i: int| pos[i] as int);
    assert forall|k: int|
        0 <= k < edges.len() && (#[trigger] edges[k]).from != edges[k].to implies w[edges[k].from
        as int] < w[edges[k].to as int] by {
        assert(processed[edges[k].to as int]);
    }
    assert(topo_order(edges, w));
    assert(w.len() == n && topo_order(edges, w));
}

/// How many non-self edges from unprocessed nodes lead into `u`, counted
/// over the edge list.
fn count_incoming_exec(edges: &Vec<GraphEdge>, processed: &Vec<bool>, u: usize) -> (r: usize)
    requires
        edges_bounded(edges@, processed@.len() as int),
    ensures
        r as int == count_incoming(edges@, processed@, u as int),
{
    let n = edges.len();
    let mut acc: usize = 0;
    let mut k: usize = 0;
    while k < n
        invariant
            k <= n,
            n == edges@.len(),
            edges_bounded(edges@, processed@.len() as int),
            acc <= k,
            acc as int == count_incoming(edges@.subrange(0, k as int), processed@, u as int),
        decreases n - k,
    {
        let e = &edges[k];
        if e.to == u && e.from != e.to && !processed[e.from] {
            acc = acc + 1;
        }
        proof {
            assert(edges@.subrange(0, k + 1).drop_last() =~= edges@.subrange(0, k as int));
            assert(edges@.subrange(0, k + 1).last() == edges@[k as int]);
        }
        k = k + 1;
    }
    proof {
        assert(edges@.subrange(0, n as int) =~= edges@);
    }
    acc
}

/// Whether the component graph is valid: acyclic apart from self-loops.
/// Nodes are processed in rounds, each round retiring one node whose
/// unprocessed predecessors are exhausted; retiring every node yields a
/// rank that witnesses acyclicity, and a stall witnesses a cycle.
#[verifier::rlimit(60)]
pub fn is_valid_graph(n_nodes: usize, edges: &Vec<GraphEdge>) -> (r: bool)
    requires
        edges_bounded(edges@, n_nodes as int),
    ensures
        r == acyclic_except_self(n_nodes as int, edges@),
{
    let mut processed: Vec<bool> = Vec::new();
    let mut pos: Vec<usize> = Vec::new();
    let mut i: usize = 0;
    while i < n_nodes
        invariant
            i <= n_nodes,
            processed@.len() == i,
            pos@.len() == i,
            count_true(processed@) == 0,
            forall|v: int| 0 <= v < i ==> !(#[trigger] processed@[v]),
        decreases n_nodes - i,
    {
        proof {
            assert(processed@.push(false).drop_last() =~= processed@);
        }
        processed.push(false);
        pos.push(0);
        i = i + 1;
    }
    let mut count: usize = 0;
    while count < n_nodes
        invariant
            count <= n_nodes,
            processed@.len() == n_nodes,
            pos@.len() == n_nodes,
            edges_bounded(edges@, n_nodes as int),
            count as int == count_true(processed@),
            forall|v: int| 0 <= v < n_nodes && processed@[v] ==> (#[trigger] pos@[v]) < count,
            forall|k: int|
                0 <= k < edges@.len() && (#[trigger] edges@[k]).from != edges@[k].to
                    && processed@[edges@[k].to as int] ==> processed@[edges@[k].from as int]
                    && pos@[edges@[k].from as int] < pos@[edges@[k].to as int],
        decreases n_nodes - count,
    {
        let mut u: usize = 0;
        let mut found = false;
        let mut cand: usize = 0;
        while u < n_nodes && !found
            invariant
                u <= n_nodes,
                processed@.len() == n_nodes,
                edges_bounded(edges@, n_nodes as int),
                found ==> cand < n_nodes && !processed@[cand as int] && count_incoming(
                    edges@,
                    processed@,
                    cand as int,
                ) == 0,
                !found ==> forall|v: int|
                    0 <= v < u ==> (#[trigger] processed@[v]) || count_incoming(
                        edges@,
                        processed@,
                        v,
                    ) != 0,
            decreases n_nodes - u, if found { 0int } else { 1int },
        {
            if !processed[u] && count_incoming_exec(edges, &processed, u) == 0 {
                found = true;
                cand = u;
            } else {
                u = u + 1;
            }
        }
        if !found {
            proof {
                lemma_stalled_shape(edges@, processed@, n_nodes as int);
                lemma_stalled_graph_cyclic(edges@, processed@, n_nodes as int);
            }
            return false;
        }
        let ghost old_processed = processed@;
        let ghost old_pos = pos@;
        proof {
            lemma_count_incoming_zero(edges@, processed@, cand as int);
            lemma_count_true_update_true(processed@, cand as int);
        }
        processed.set(cand, true);
        pos.set(cand, count);
        proof {
            lemma_retire_node(
                edges@,
                old_processed,
                processed@,
                old_pos,
                pos@,
                cand as int,
                count,
            );
        }
        count = count + 1;
    }
    proof {
        lemma_complete_order(edges@, processed@, pos@, n_nodes as int);
    }
    true
}

/// The order a breadth-first traversal from `start` visits nodes, using
/// the edges in declaration order.
fn bfs_order(n_nodes: usize, edges: &Vec<GraphEdge>, start: usize) -> (r: Vec<usize>)
    requires
        start < n_nodes,
        edges_bounded(edges@, n_nodes as int),
    ensures
        forall|i: int| 0 <= i < r@.len() ==> (#[trigger] r@[i]) < n_nodes,
{
    let mut visited: Vec<bool> = Vec::new();
    let mut i: usize = 0;
    while i < n_nodes
        invariant
            i <= n_nodes,
            visited@.len() == i,
            count_true(visited@) == 0,
            forall|v: int| 0 <= v < i ==> !(#[trigger] visited@[v]),
        decreases n_nodes - i,
    {
        proof {
            assert(visited@.push(false).drop_last() =~= visited@);
        }
        visited.push(false);
        i = i + 1;
    }
    let mut queue: Vec<usize> = Vec::new();
    proof {
        lemma_count_true_update_true(visited@, start as int);
    }
    visited.set(start, true);
    queue.push(start);
    let mut head: usize = 0;
    while head < queue.len()
        invariant
            visited@.len() == n_nodes,
            edges_bounded(edges@, n_nodes as int),
            head <= queue@.len(),
            queue@.len() == count_true(visited@),
            queue@.len() <= n_nodes,
            forall|i: int| 0 <= i < queue@.len() ==> (#[trigger] queue@[i]) < n_nodes,
        decreases n_nodes - head,
    {
        let v = queue[head];
        head = head + 1;
        let n_edges = edges.len();
        let mut k: usize = 0;
        while k < n_edges
            invariant
                visited@.len() == n_nodes,
                edges_bounded(edges@, n_nodes as int),
                n_edges == edges@.len(),
                k <= n_edges,
                v < n_nodes,
                head <= queue@.len(),
                queue@.len() == count_true(visited@),
                queue@.len() <= n_nodes,
                forall|i: int| 0 <= i < queue@.len() ==> (#[trigger] queue@[i]) < n_nodes,
            decreases n_edges - k,
        {
            let e = &edges[k];
            if e.from == v && !visited[e.to] {
                proof {
                    lemma_count_true_update_true(visited@, edges@[k as int].to as int);
                    lemma_count_true_bound(visited@.update(edges@[k as int].to as int, true));
                }
                visited.set(e.to, true);
                queue.push(e.to);
            }
            k = k + 1;
        }
        proof {
            lemma_count_true_bound(visited@);
        }
    }
    queue
}

/// What one step may change in the collection: every entry keeps its
/// name, kind, units, axis and strategy, and its values change at most
/// at index `w`; `latest` either stays or moves to `w`.
pub open spec fn entry_wrote_only_at(o: TimeseriesItem, m: TimeseriesItem, w: int) -> bool {
    &&& m.name == o.name
    &&& m.variable_type == o.variable_type
    &&& m.timeseries.units == o.timeseries.units
    &&& m.timeseries.time_axis.bounds@ == o.timeseries.time_axis.bounds@
    &&& m.timeseries.interpolation_strategy == o.timeseries.interpolation_strategy
    &&& m.timeseries.values@.len() == o.timeseries.values@.len()
    &&& (forall|j: int|
        0 <= j < o.timeseries.values@.len() && j != w ==> (#[trigger] m.timeseries.values@[j])
            == o.timeseries.values@[j])
    &&& (m.timeseries.latest == o.timeseries.latest || m.timeseries.latest == w)
}

pub open spec fn wrote_only_at(
    old_items: Seq<TimeseriesItem>,
    new_items: Seq<TimeseriesItem>,
    w: int,
) -> bool {
    &&& new_items.len() == old_items.len()
    &&& forall|i: int|
        #![trigger old_items[i], new_items[i]]
        0 <= i < old_items.len() ==> entry_wrote_only_at(old_items[i], new_items[i], w)
}

proof fn lemma_wrote_only_trans(
    a: Seq<TimeseriesItem>,
    b: Seq<TimeseriesItem>,
    c: Seq<TimeseriesItem>,
    w: int,
)
    requires
        wrote_only_at(a, b, w),
        wrote_only_at(b, c, w),
    ensures
        wrote_only_at(a, c, w),
{
    assert forall|i: int|
        #![trigger a[i], c[i]]
        0 <= i < a.len() implies entry_wrote_only_at(a[i], c[i], w) by {
        assert(entry_wrote_only_at(a[i], b[i], w));
        assert(entry_wrote_only_at(b[i], c[i], w));
        assert forall|j: int|
            0 <= j < a[i].timeseries.values@.len() && j != w implies (
        #[trigger] c[i].timeseries.values@[j]) == a[i].timeseries.values@[j] by {
            assert(b[i].timeseries.values@[j] == a[i].timeseries.values@[j]);
        }
    }
}

/// What `Timeseries::set(index, value)` leaves of one entry: the value
/// lands at `index`, `latest` moves up to a present value, everything
/// else stays.
pub open spec fn entry_written(o: TimeseriesItem, m: TimeseriesItem, index: int, value: Scalar) -> bool {
    &&& m.name == o.name
    &&& m.variable_type == o.variable_type
    &&& m.timeseries.units == o.timeseries.units
    &&& m.timeseries.time_axis.bounds@ == o.timeseries.time_axis.bounds@
    &&& m.timeseries.interpolation_strategy == o.timeseries.interpolation_strategy
    &&& m.timeseries.values@ == o.timeseries.values@.update(index, value)
    &&& m.timeseries.latest as int == (if !value.missing_spec() && index > o.timeseries.latest {
        index
    } else {
        o.timeseries.latest as int
    })
}

/// One output write: when the name is in the store and the index is
/// within that series, exactly that entry is written and every other
/// entry is untouched; otherwise nothing changes at all.
pub open spec fn written_one(
    old_items: Seq<TimeseriesItem>,
    new_items: Seq<TimeseriesItem>,
    name: Seq<char>,
    index: int,
    value: Scalar,
) -> bool {
    &&& new_items.len() == old_items.len()
    &&& if contains_name(old_items, name) && 0 <= index < old_items[index_of_name(
        old_items,
        name,
    )].timeseries.values@.len() {
        let i = index_of_name(old_items, name);
        &&& entry_written(old_items[i], new_items[i], index, value)
        &&& forall|j: int|
            0 <= j < old_items.len() && j != i ==> (#[trigger] new_items[j]) == old_items[j]
    } else {
        new_items == old_items
    }
}

/// A run of output writes at one index, applied in entry order, so a
/// later entry of the same name overrides an earlier one: some chain of
/// intermediate stores connects the old store to the new one, one
/// single-entry write per output entry.
pub open spec fn written_all(
    old_items: Seq<TimeseriesItem>,
    new_items: Seq<TimeseriesItem>,
    entries: Seq<(String, Scalar)>,
    index: int,
) -> bool {
    exists|chain: Seq<Seq<TimeseriesItem>>|
        #![trigger chain.len()]
        chain.len() == entries.len() + 1 && chain[0] == old_items && chain[entries.len() as int]
            == new_items && (forall|k: int|
            0 <= k < entries.len() ==> written_one(
                #[trigger] chain[k],
                chain[k + 1],
                entries[k].0@,
                index,
                entries[k].1,
            ))
}

/// Writes `value` at `index` of the series named `name`; an unknown name
/// or an index past the series' end changes nothing, so outputs falling
/// beyond the final step are dropped.
fn write_output(collection: &mut TimeseriesCollection, name: &str, index: usize, value: Scalar)
    requires
        old(collection).wf(),
        value.inv(),
    ensures
        final(collection).wf(),
        written_one(
            old(collection).timeseries@,
            final(collection).timeseries@,
            name@,
            index as int,
            value,
        ),
        wrote_only_at(old(collection).timeseries@, final(collection).timeseries@, index as int),
{
    let ghost old_items = collection.timeseries@;
    let found = collection.get_timeseries_by_name_mut(name);
    match found {
        Some(ts) => {
            if index < ts.len() {
                ts.set(index, value);
            }
        },
        None => {},
    }
    proof {
        if contains_name(old_items, name@) {
            let i = index_of_name(old_items, name@);
            if !((index as int) < old_items[i].timeseries.values@.len()) {
                assert(collection.timeseries@ =~= old_items);
            }
        }
        assert forall|i: int|
            #![trigger old_items[i], collection.timeseries@[i]]
            0 <= i < old_items.len() implies entry_wrote_only_at(
            old_items[i],
            collection.timeseries@[i],
            index as int,
        ) by {
            if contains_name(old_items, name@) && i == crate::timeseries_collection::index_of_name(
                old_items,
                name@,
            ) {
            } else {
                assert(collection.timeseries@[i] == old_items[i]);
            }
        }
        assert forall|i: int|
            0 <= i < collection.timeseries@.len() implies (
        #[trigger] collection.timeseries@[i]).timeseries.wf() by {
            assert(old_items[i].timeseries.wf());
        }
        assert(crate::timeseries_collection::names_unique(collection.timeseries@)) by {
            assert forall|a: int, b: int|
                #![trigger collection.timeseries@[a], collection.timeseries@[b]]
                0 <= a < b < collection.timeseries@.len() implies collection.timeseries@[a].name@
                != collection.timeseries@[b].name@ by {
                assert(old_items[a].name@ != old_items[b].name@);
            }
        }
    }
}

/// Writes a whole output state at one index: every named series that
/// exists in the store receives its value at `index`, in entry order,
/// and nothing else changes.  This is what makes a component's solved
/// outputs land in the collection at the next time index.
fn write_outputs(collection: &mut TimeseriesCollection, output_state: &OutputState, index: usize)
    requires
        old(collection).wf(),
        state_inv(output_state.state@),
    ensures
        final(collection).wf(),
        written_all(
            old(collection).timeseries@,
            final(collection).timeseries@,
            output_state.state@,
            index as int,
        ),
        wrote_only_at(old(collection).timeseries@, final(collection).timeseries@, index as int),
{
    let ghost first_items = collection.timeseries@;
    let ghost mut chain: Seq<Seq<TimeseriesItem>> = seq![collection.timeseries@];
    let n = output_state.state.len();
    let mut i: usize = 0;
    while i < n
        invariant
            i <= n,
            n == output_state.state@.len(),
            state_inv(output_state.state@),
            collection.wf(),
            chain.len() == i + 1,
            chain[0] == first_items,
            chain[i as int] == collection.timeseries@,
            forall|k: int|
                0 <= k < i ==> written_one(
                    #[trigger] chain[k],
                    chain[k + 1],
                    output_state.state@[k].0@,
                    index as int,
                    output_state.state@[k].1,
                ),
            wrote_only_at(first_items, collection.timeseries@, index as int),
        decreases n - i,
    {
        let ghost mid_items = collection.timeseries@;
        let name = &output_state.state[i].0;
        let value = output_state.state[i].1;
        write_output(collection, name.as_str(), index, value);
        proof {
            lemma_wrote_only_trans(
                first_items,
                mid_items,
                collection.timeseries@,
                index as int,
            );
            chain = chain.push(collection.timeseries@);
        }
        i = i + 1;
    }
    proof {
        assert(chain.len() == output_state.state@.len() + 1 && chain[0] == first_items
            && chain[output_state.state@.len() as int] == collection.timeseries@);
    }
}

/// One node line of the graph rendering.
pub open spec fn dot_node_line(node: nat, label: Seq<char>) -> Seq<char> {
    "    "@ + crate::scalar::dec_digits(node) + " [ label = \""@ + label + "\"]\n"@
}

/// One edge line of the graph rendering: a dependency edge carries its
/// requirement's name and unit, an initial-node link is unlabelled.
pub open spec fn dot_edge_line(e: GraphEdge) -> Seq<char> {
    "    "@ + crate::scalar::dec_digits(e.from as nat) + " -> "@ + crate::scalar::dec_digits(
        e.to as nat,
    ) + (match e.requirement {
        Option::None => " [ ]\n"@,
        Option::Some(r) => " [ label = \""@ + r.name@ + " ("@ + r.unit@ + ")\"]\n"@,
    })
}

/// The node lines for the first `upto` labels, in order.
pub open spec fn dot_nodes(labels: Seq<Seq<char>>, upto: int) -> Seq<char>
    decreases upto,
{
    if upto <= 0 {
        Seq::empty()
    } else {
        dot_nodes(labels, upto - 1) + dot_node_line(upto as nat, labels[upto - 1])
    }
}

/// The edge lines for the first `upto` edges, in order.
pub open spec fn dot_edges(edges: Seq<GraphEdge>, upto: int) -> Seq<char>
    decreases upto,
{
    if upto <= 0 {
        Seq::empty()
    } else {
        dot_edges(edges, upto - 1) + dot_edge_line(edges[upto - 1])
    }
}

/// The character sequences of a run of label strings.
pub open spec fn label_views(labels: Seq<String>) -> Seq<Seq<char>> {
    Seq::new(labels.len(), |i: int| labels[i]@)
}

/// The whole rendering: header with the unlabelled initial node, one
/// labelled line per component node, every edge line in order, and the
/// closing brace.
pub open spec fn dot_spec(labels: Seq<Seq<char>>, edges: Seq<GraphEdge>) -> Seq<char> {
    "digraph {\n    0 [ ]\n"@ + dot_nodes(labels, labels.len() as int) + dot_edges(
        edges,
        edges.len() as int,
    ) + "}\n"@
}

/// Renders a component graph as Graphviz text, exactly per `dot_spec`:
/// node `i + 1` carries the `i`-th label, and every edge appears in
/// order with its requirement's name and unit.
pub fn render_dot(labels: &Vec<String>, edges: &Vec<GraphEdge>) -> (r: String)
    ensures
        r@ == dot_spec(label_views(labels@), edges@),
{
    let mut out = String::from_str("digraph {\n    0 [ ]\n");
    let n = labels.len();
    let mut i: usize = 0;
    while i < n
        invariant
            i <= n,
            n == labels@.len(),
            out@ == "digraph {\n    0 [ ]\n"@ + dot_nodes(label_views(labels@), i as int),
        decreases n - i,
    {
        out.append("    ");
        let num = crate::scalar::u64_to_string((i + 1) as u64);
        out.append(num.as_str());
        out.append(" [ label = \"");
        out.append(labels[i].as_str());
        out.append("\"]\n");
        proof {
            assert(out@ =~= "digraph {\n    0 [ ]\n"@ + dot_nodes(label_views(labels@), i + 1));
        }
        i = i + 1;
    }
    let n_edges = edges.len();
    let mut k: usize = 0;
    while k < n_edges
        invariant
            k <= n_edges,
            n_edges == edges@.len(),
            n == labels@.len(),
            out@ == "digraph {\n    0 [ ]\n"@ + dot_nodes(label_views(labels@), n as int)
                + dot_edges(edges@, k as int),
        decreases n_edges - k,
    {
        let e = &edges[k];
        out.append("    ");
        out.append(crate::scalar::u64_to_string(e.from as u64).as_str());
        out.append(" -> ");
        out.append(crate::scalar::u64_to_string(e.to as u64).as_str());
        match &e.requirement {
            None => {
                out.append(" [ ]\n");
            },
            Some(r) => {
                out.append(" [ label = \"");
                out.append(r.name.as_str());
                out.append(" (");
                out.append(r.unit.as_str());
                out.append(")\"]\n");
            },
        }
        proof {
            assert(out@ =~= "digraph {\n    0 [ ]\n"@ + dot_nodes(label_views(labels@), n as int)
                + dot_edges(edges@, k + 1));
        }
        k = k + 1;
    }
    out.append("}\n");
    proof {
        assert(out@ =~= dot_spec(label_views(labels@), edges@));
    }
    out
}

/// A runnable model: components wired into a dependency graph, a
/// prepared collection, and a shared time axis with a step cursor.
pub struct Model<C> {
    pub components: Vec<C>,
    pub graph: Vec<GraphEdge>,
    pub initial_node: usize,
    pub collection: TimeseriesCollection,
    pub time_axis: TimeAxis,
    pub time_index: usize,
}

impl<C: Component> Model<C> {
    /// A valid model: valid axis, collection and components, a bounded
    /// acyclic graph rooted at the initial node, and the cursor within
    /// the axis.
    pub open spec fn wf(&self) -> bool {
        &&& self.time_axis.wf()
        &&& self.collection.wf()
        &&& self.components@.len() < usize::MAX
        &&& self.time_index <= self.time_axis.bounds@.len() - 1
        &&& self.initial_node == 0
        &&& edges_bounded(self.graph@, self.components@.len() as int + 1)
        &&& acyclic_except_self(self.components@.len() as int + 1, self.graph@)
    }

    pub fn new(
        components: Vec<C>,
        graph: Vec<GraphEdge>,
        initial_node: usize,
        collection: TimeseriesCollection,
        time_axis: TimeAxis,
    ) -> (r: Model<C>)
        requires
            time_axis.wf(),
            collection.wf(),
            components@.len() < usize::MAX,
            initial_node == 0,
            edges_bounded(graph@, components@.len() as int + 1),
            acyclic_except_self(components@.len() as int + 1, graph@),
        ensures
            r.wf(),
            r.time_index == 0,
            r.components@ == components@,
            r.graph@ == graph@,
            r.collection == collection,
            r.time_axis == time_axis,
    {
        Model { components, graph, initial_node, collection, time_axis, time_index: 0 }
    }

    /// The time value at the current step.
    pub fn current_time(&self) -> (r: Scalar)
        requires
            self.wf(),
            self.time_index < self.time_axis.bounds@.len() - 1,
        ensures
            r == self.time_axis.bounds@[self.time_index as int],
    {
        let got = self.time_axis.at(self.time_index);
        match got {
            Some(t) => t,
            None => unreached(),
        }
    }

    /// Both bounds of the current step; the later bound lies above the
    /// earlier one.
    pub fn current_time_bounds(&self) -> (r: (Scalar, Scalar))
        requires
            self.wf(),
            self.time_index < self.time_axis.bounds@.len() - 1,
        ensures
            r.0 == self.time_axis.bounds@[self.time_index as int],
            r.1 == self.time_axis.bounds@[self.time_index + 1],
            r.0@ < r.1@,
    {
        let got = self.time_axis.at_bounds(self.time_index);
        match got {
            Some(p) => p,
            None => unreached(),
        }
    }

    /// Solves one component for the current step and writes its outputs
    /// at the next time index; a failing extraction or solve leaves the
    /// collection unchanged and the run goes on.
    fn process_node(&mut self, comp_idx: usize)
        requires
            old(self).wf(),
            comp_idx < old(self).components@.len(),
            old(self).time_index < old(self).time_axis.bounds@.len() - 1,
        ensures
            final(self).wf(),
            final(self).components@ == old(self).components@,
            final(self).graph@ == old(self).graph@,
            final(self).initial_node == old(self).initial_node,
            final(self).time_axis == old(self).time_axis,
            final(self).time_index == old(self).time_index,
            wrote_only_at(
                old(self).collection.timeseries@,
                final(self).collection.timeseries@,
                old(self).time_index + 1,
            ),
    {
        let t_current = self.current_time();
        let bounds = self.current_time_bounds();
        let component = &self.components[comp_idx];
        let extracted = component.extract_state(&self.collection, t_current);
        let input_state = match extracted {
            Ok(s) => s,
            Err(_) => {
                return ;
            },
        };
        proof {
            assert(self.time_axis.bounds@[self.time_index as int].finite());
            assert(self.time_axis.bounds@[self.time_index + 1].finite());
        }
        let result = component.solve(bounds.0, bounds.1, &input_state);
        let output_state = match result {
            Ok(s) => s,
            Err(_) => {
                return ;
            },
        };
        let _n_axis: usize = self.time_axis.len_bounds();
        let write_idx = self.time_index + 1;
        write_outputs(&mut self.collection, &output_state, write_idx);
    }

    /// Advances the model one step: every component reachable from the
    /// initial node is solved in breadth-first order, outputs land at
    /// the next time index, and the cursor moves forward.  Outputs of
    /// the final step would fall beyond the series and are dropped.
    pub fn step(&mut self)
        requires
            old(self).wf(),
            old(self).time_index < old(self).time_axis.bounds@.len() - 1,
        ensures
            final(self).wf(),
            final(self).time_index == old(self).time_index + 1,
            final(self).components@ == old(self).components@,
            final(self).graph@ == old(self).graph@,
            final(self).initial_node == old(self).initial_node,
            final(self).time_axis == old(self).time_axis,
            wrote_only_at(
                old(self).collection.timeseries@,
                final(self).collection.timeseries@,
                old(self).time_index + 1,
            ),
    {
        let n_nodes = self.components.len() + 1;
        let order = bfs_order(n_nodes, &self.graph, self.initial_node);
        let n = order.len();
        let mut i: usize = 0;
        while i < n
            invariant
                i <= n,
                n == order@.len(),
                forall|j: int| 0 <= j < order@.len() ==> (#[trigger] order@[j]) < old(
                    self,
                ).components@.len() + 1,
                self.wf(),
                self.collection.wf(),
                wrote_only_at(
                    old(self).collection.timeseries@,
                    self.collection.timeseries@,
                    old(self).time_index + 1,
                ),
                self.components@ == old(self).components@,
                self.graph@ == old(self).graph@,
                self.initial_node == old(self).initial_node,
                self.time_axis == old(self).time_axis,
                self.time_index == old(self).time_index,
                self.time_index < self.time_axis.bounds@.len() - 1,
            decreases n - i,
        {
            let node = order[i];
            if node != 0 {
                let ghost mid_items = self.collection.timeseries@;
                self.process_node(node - 1);
                proof {
                    lemma_wrote_only_trans(
                        old(self).collection.timeseries@,
                        mid_items,
                        self.collection.timeseries@,
                        old(self).time_index + 1,
                    );
                }
            }
            i = i + 1;
        }
        let _n_axis: usize = self.time_axis.len_bounds();
        self.time_index = self.time_index + 1;
    }

    /// Steps the model until the cursor reaches the end of the time
    /// axis.
    pub fn run(&mut self)
        requires
            old(self).wf(),
        ensures
            final(self).wf(),
            final(self).time_index == final(self).time_axis.bounds@.len() - 1,
            final(self).time_axis == old(self).time_axis,
            final(self).components@ == old(self).components@,
            final(self).graph@ == old(self).graph@,
    {
        let end = self.time_axis.len();
        while self.time_index < end
            invariant
                self.wf(),
                end as int == self.time_axis.bounds@.len() - 1,
                self.time_axis == old(self).time_axis,
                self.components@ == old(self).components@,
                self.graph@ == old(self).graph@,
            decreases end - self.time_index,
        {
            self.step();
        }
    }

    /// A Graphviz rendering of the component graph: one line per node
    /// with the component's label, one line per dependency edge.
    pub fn as_dot(&self) -> (r: String)
        requires
            self.wf(),
        ensures
            exists|labels: Seq<Seq<char>>|
                labels.len() == self.components@.len() && r@ == dot_spec(labels, self.graph@),
    {
        let mut labels: Vec<String> = Vec::new();
        let n = self.components.len();
        let mut i: usize = 0;
        while i < n
            invariant
                i <= n,
                n == self.components@.len(),
                labels@.len() == i,
            decreases n - i,
        {
            labels.push(self.components[i].label());
            i = i + 1;
        }
        let rendered = render_dot(&labels, &self.graph);
        proof {
            assert(label_views(labels@).len() == self.components@.len());
            assert(rendered@ == dot_spec(label_views(labels@), self.graph@));
        }
        rendered
    }
}

/// The component declares `name` among its outputs.
pub open spec fn produces_name(defs: Seq<RequirementDefinition>, name: Seq<char>) -> bool {
    exists|j: int| 0 <= j < defs.len() && is_output_def(#[trigger] defs[j]) && defs[j].name@ == name
}

/// The index of the last component before `i` whose outputs declare
/// `name`; `-1` when none does.  With `i` the component count this is
/// the variable's producer of record: a later registration overrides an
/// earlier one.
pub open spec fn last_producer_before(
    all: Seq<Vec<RequirementDefinition>>,
    i: int,
    name: Seq<char>,
) -> int
    decreases i,
{
    if i <= 0 {
        -1
    } else if produces_name(all[i - 1]@, name) {
        i - 1
    } else {
        last_producer_before(all, i - 1, name)
    }
}

proof fn lemma_last_producer_range(all: Seq<Vec<RequirementDefinition>>, i: int, name: Seq<char>)
    requires
        0 <= i,
    ensures
        -1 <= last_producer_before(all, i, name),
        last_producer_before(all, i, name) < i,
    decreases i,
{
    if i > 0 {
        lemma_last_producer_range(all, i - 1, name);
    }
}

/// All requirement declarations of all components, in registration and
/// declaration order.
pub open spec fn flat_defs(all: Seq<Vec<RequirementDefinition>>) -> Seq<RequirementDefinition>
    decreases all.len(),
{
    if all.len() == 0 {
        Seq::empty()
    } else {
        flat_defs(all.drop_last()) + all.last()@
    }
}

/// Any two declarations of one name carry the same unit string,
/// compared verbatim.
pub open spec fn units_consistent(flat: Seq<RequirementDefinition>) -> bool {
    forall|i: int, j: int|
        #![trigger flat[i], flat[j]]
        0 <= i < flat.len() && 0 <= j < flat.len() && flat[i].name@ == flat[j].name@
            ==> flat[i].unit@ == flat[j].unit@
}

/// Whether the component declares `name` among its outputs.
fn produces_name_exec(defs: &Vec<RequirementDefinition>, name: &String) -> (r: bool)
    ensures
        r == produces_name(defs@, name@),
{
    let n = defs.len();
    let mut j: usize = 0;
    while j < n
        invariant
            j <= n,
            n == defs@.len(),
            forall|k: int|
                0 <= k < j ==> !(is_output_def(#[trigger] defs@[k]) && defs@[k].name@ == name@),
        decreases n - j,
    {
        let is_output = match defs[j].requirement_type {
            RequirementType::Output => true,
            RequirementType::InputAndOutput => true,
            RequirementType::Input => false,
        };
        if is_output && defs[j].name.eq(name) {
            return true;
        }
        j = j + 1;
    }
    false
}

/// The last component before `upto` that produces `name`, or absent.
fn find_last_producer(
    all_defs: &Vec<Vec<RequirementDefinition>>,
    upto: usize,
    name: &String,
) -> (r: Option<usize>)
    requires
        upto <= all_defs@.len(),
    ensures
        r is Some <==> last_producer_before(all_defs@, upto as int, name@) >= 0,
        r matches Some(p) ==> p as int == last_producer_before(all_defs@, upto as int, name@),
{
    let mut best: Option<usize> = None;
    let mut i: usize = 0;
    while i < upto
        invariant
            i <= upto <= all_defs@.len(),
            best is Some <==> last_producer_before(all_defs@, i as int, name@) >= 0,
            best matches Some(p) ==> p as int == last_producer_before(all_defs@, i as int, name@),
        decreases upto - i,
    {
        if produces_name_exec(&all_defs[i], name) {
            best = Some(i);
        }
        i = i + 1;
    }
    best
}

/// All components' declarations, flattened in order.
fn flatten_definitions(all_defs: &Vec<Vec<RequirementDefinition>>) -> (r: Vec<
    RequirementDefinition,
>)
    ensures
        r@ == flat_defs(all_defs@),
{
    let mut out: Vec<RequirementDefinition> = Vec::new();
    let n = all_defs.len();
    let mut i: usize = 0;
    while i < n
        invariant
            i <= n,
            n == all_defs@.len(),
            out@ == flat_defs(all_defs@.subrange(0, i as int)),
        decreases n - i,
    {
        let defs = &all_defs[i];
        let m = defs.len();
        let mut d: usize = 0;
        while d < m
            invariant
                i < n,
                d <= m,
                n == all_defs@.len(),
                m == all_defs@[i as int]@.len(),
                out@ == flat_defs(all_defs@.subrange(0, i as int)) + all_defs@[i as int]@.subrange(
                    0,
                    d as int,
                ),
            decreases m - d,
        {
            out.push(clone_def(&all_defs[i][d]));
            proof {
                assert(all_defs@[i as int]@.subrange(0, d + 1) =~= all_defs@[i as int]@.subrange(
                    0,
                    d as int,
                ).push(all_defs@[i as int]@[d as int]));
            }
            d = d + 1;
        }
        proof {
            assert(all_defs@.subrange(0, i + 1).drop_last() =~= all_defs@.subrange(0, i as int));
            assert(all_defs@.subrange(0, i + 1).last() == all_defs@[i as int]);
            assert(all_defs@[i as int]@.subrange(0, m as int) =~= all_defs@[i as int]@);
        }
        i = i + 1;
    }
    proof {
        assert(all_defs@.subrange(0, n as int) =~= all_defs@);
    }
    out
}

/// Every processed declaration agrees with some gathered definition.
/// Kept opaque so the quantifier alternation only unfolds on demand.
#[verifier::opaque]
pub open spec fn flat_covered(
    flat: Seq<RequirementDefinition>,
    upto: int,
    defs: Seq<VariableDefinition>,
) -> bool {
    forall|k: int|
        0 <= k < upto ==> exists|d: int|
            0 <= d < defs.len() && (#[trigger] flat[k]).name@ == defs[d].name@ && flat[k].unit@
                == defs[d].unit@
}

/// Every gathered definition stems from some processed declaration.
/// Kept opaque so the quantifier alternation only unfolds on demand.
#[verifier::opaque]
pub open spec fn defs_sourced(
    flat: Seq<RequirementDefinition>,
    upto: int,
    defs: Seq<VariableDefinition>,
) -> bool {
    forall|d: int|
        0 <= d < defs.len() ==> exists|k: int|
            0 <= k < upto && (#[trigger] defs[d]).name@ == flat[k].name@ && defs[d].unit@
                == flat[k].unit@
}

/// Gathers the distinct variable definitions of the flattened
/// declarations: succeeds exactly when every name's units agree
/// verbatim, and then yields one entry per distinct name carrying its
/// unit; a verbatim disagreement fails with `UnitMismatch`.
/// One more declaration that some definition covers extends coverage.
proof fn lemma_flat_covered_extend(
    flat: Seq<RequirementDefinition>,
    k: int,
    before: Seq<VariableDefinition>,
    after: Seq<VariableDefinition>,
)
    requires
        0 <= k < flat.len(),
        flat_covered(flat, k, before),
        before.len() <= after.len(),
        forall|d: int| 0 <= d < before.len() ==> (#[trigger] after[d]) == before[d],
        exists|d: int|
            0 <= d < after.len() && flat[k].name@ == (#[trigger] after[d]).name@ && flat[k].unit@
                == after[d].unit@,
    ensures
        flat_covered(flat, k + 1, after),
{
    reveal(flat_covered);
    assert forall|k2: int|
        0 <= k2 < k + 1 implies exists|d: int|
        0 <= d < after.len() && (#[trigger] flat[k2]).name@ == after[d].name@ && flat[k2].unit@
            == after[d].unit@ by {
        if k2 < k {
            let d1 = choose|d: int|
                0 <= d < before.len() && (#[trigger] flat[k2]).name@ == before[d].name@
                    && flat[k2].unit@ == before[d].unit@;
            assert(after[d1] == before[d1]);
            assert(flat[k2].name@ == after[d1].name@ && flat[k2].unit@ == after[d1].unit@);
        }
    }
}

/// A new definition drawn from the current declaration keeps every
/// definition sourced.
proof fn lemma_defs_sourced_extend(
    flat: Seq<RequirementDefinition>,
    k: int,
    before: Seq<VariableDefinition>,
    after: Seq<VariableDefinition>,
)
    requires
        0 <= k < flat.len(),
        defs_sourced(flat, k, before),
        before.len() <= after.len() <= before.len() + 1,
        forall|d: int| 0 <= d < before.len() ==> (#[trigger] after[d]) == before[d],
        after.len() > before.len() ==> after[after.len() - 1].name@ == flat[k].name@
            && after[after.len() - 1].unit@ == flat[k].unit@,
    ensures
        defs_sourced(flat, k + 1, after),
{
    reveal(defs_sourced);
    assert forall|d: int|
        0 <= d < after.len() implies exists|k2: int|
        0 <= k2 < k + 1 && (#[trigger] after[d]).name@ == flat[k2].name@ && after[d].unit@
            == flat[k2].unit@ by {
        if d < before.len() {
            let k1 = choose|k2: int|
                0 <= k2 < k && (#[trigger] before[d]).name@ == flat[k2].name@ && before[d].unit@
                    == flat[k2].unit@;
            assert(after[d] == before[d]);
            assert(after[d].name@ == flat[k1].name@ && after[d].unit@ == flat[k1].unit@);
        } else {
            assert(after[d].name@ == flat[k as int].name@ && after[d].unit@
                == flat[k as int].unit@);
        }
    }
}

/// A declaration that disagrees with the gathered unit of its name
/// witnesses a verbatim unit conflict among the declarations.
proof fn lemma_conflict_witness(
    flat: Seq<RequirementDefinition>,
    k: int,
    defs: Seq<VariableDefinition>,
    d0: int,
)
    requires
        0 <= k < flat.len(),
        defs_sourced(flat, k, defs),
        0 <= d0 < defs.len(),
        defs[d0].name@ == flat[k].name@,
        defs[d0].unit@ != flat[k].unit@,
    ensures
        !units_consistent(flat),
{
    reveal(defs_sourced);
    let k0 = choose|k2: int|
        0 <= k2 < k && (#[trigger] defs[d0]).name@ == flat[k2].name@ && defs[d0].unit@
            == flat[k2].unit@;
    assert(flat[k0].name@ == flat[k].name@);
    assert(flat[k0].unit@ != flat[k].unit@);
}

/// Full coverage by unique definitions means every name's units agree.
proof fn lemma_covered_consistent(flat: Seq<RequirementDefinition>, defs: Seq<VariableDefinition>)
    requires
        flat_covered(flat, flat.len() as int, defs),
        defs_unique(defs),
    ensures
        units_consistent(flat),
        forall|k: int|
            0 <= k < flat.len() ==> contains_def(defs, (#[trigger] flat[k]).name@)
                && defs[def_index_of(defs, flat[k].name@)].unit@ == flat[k].unit@,
{
    reveal(flat_covered);
    assert forall|i: int, j: int|
        #![trigger flat[i], flat[j]]
        0 <= i < flat.len() && 0 <= j < flat.len() && flat[i].name@
            == flat[j].name@ implies flat[i].unit@ == flat[j].unit@ by {
        let di = choose|d: int|
            0 <= d < defs.len() && (#[trigger] flat[i]).name@ == defs[d].name@ && flat[i].unit@
                == defs[d].unit@;
        let dj = choose|d: int|
            0 <= d < defs.len() && (#[trigger] flat[j]).name@ == defs[d].name@ && flat[j].unit@
                == defs[d].unit@;
        if di != dj {
            assert(defs[di].name@ != defs[dj].name@);
        }
    }
    assert forall|k: int|
        0 <= k < flat.len() implies contains_def(defs, (#[trigger] flat[k]).name@)
        && defs[def_index_of(defs, flat[k].name@)].unit@ == flat[k].unit@ by {
        let d1 = choose|d: int|
            0 <= d < defs.len() && (#[trigger] flat[k]).name@ == defs[d].name@ && flat[k].unit@
                == defs[d].unit@;
        lemma_def_found_is_index(defs, flat[k].name@, d1);
    }
}

/// Gathers the distinct variable definitions of the flattened
/// declarations: succeeds exactly when every name's units agree
/// verbatim, and then yields one entry per distinct name carrying its
/// unit; a verbatim disagreement fails with `UnitMismatch`.
pub fn gather_definitions(flat: &Vec<RequirementDefinition>) -> (r: RSCMResult<
    Vec<VariableDefinition>,
>)
    ensures
        r is Ok <==> units_consistent(flat@),
        r matches Err(e) ==> e is UnitMismatch,
        r matches Ok(defs) ==> defs_unique(defs@) && (forall|k: int|
            0 <= k < flat@.len() ==> contains_def(defs@, (#[trigger] flat@[k]).name@)
                && defs@[def_index_of(defs@, flat@[k].name@)].unit@ == flat@[k].unit@)
            && defs_sourced(flat@, flat@.len() as int, defs@),
{
    let mut definitions: Vec<VariableDefinition> = Vec::new();
    let n = flat.len();
    let mut k: usize = 0;
    proof {
        reveal(flat_covered);
        reveal(defs_sourced);
        assert(flat_covered(flat@, 0, definitions@));
        assert(defs_sourced(flat@, 0, definitions@));
    }
    while k < n
        invariant
            k <= n,
            n == flat@.len(),
            defs_unique(definitions@),
            flat_covered(flat@, k as int, definitions@),
            defs_sourced(flat@, k as int, definitions@),
        decreases n - k,
    {
        let ghost before = definitions@;
        let checked = verify_definition(&mut definitions, &flat[k]);
        match checked {
            Ok(()) => {
                proof {
                    if contains_def(before, flat@[k as int].name@) {
                        let d0 = def_index_of(before, flat@[k as int].name@);
                        assert(0 <= d0 < before.len() && before[d0].name@ == flat@[k as int].name@);
                        assert(before[d0].unit@ == flat@[k as int].unit@);
                        assert(definitions@[d0] == before[d0]);
                    } else {
                        assert(definitions@[definitions@.len() - 1].name@ == flat@[k as int].name@);
                    }
                    lemma_flat_covered_extend(flat@, k as int, before, definitions@);
                    lemma_defs_sourced_extend(flat@, k as int, before, definitions@);
                }
            },
            Err(e) => {
                proof {
                    let d0 = def_index_of(before, flat@[k as int].name@);
                    assert(0 <= d0 < before.len() && before[d0].name@ == flat@[k as int].name@);
                    lemma_conflict_witness(flat@, k as int, before, d0);
                }
                return Err(e);
            },
        }
        k = k + 1;
    }
    proof {
        lemma_covered_consistent(flat@, definitions@);
    }
    Ok(definitions)
}

/// Whether `e` is the chain edge recorded for output `j` of component
/// `i`: a link from the variable's previous producer of record.
pub open spec fn chain_edge_at(
    all: Seq<Vec<RequirementDefinition>>,
    i: int,
    j: int,
    e: GraphEdge,
) -> bool {
    &&& 0 <= i < all.len()
    &&& 0 <= j < output_defs(all[i]@).len()
    &&& last_producer_before(all, i, output_defs(all[i]@)[j].name@) >= 0
    &&& e.from as int == last_producer_before(all, i, output_defs(all[i]@)[j].name@) + 1
    &&& e.to as int == i + 1
    &&& e.requirement == Some(output_defs(all[i]@)[j])
}

/// Whether `e` is the dependency edge recorded for input `j` of
/// component `i`: a link from the variable's producer of record, a
/// self-loop when the component carries the variable itself.
pub open spec fn input_edge_at(
    all: Seq<Vec<RequirementDefinition>>,
    i: int,
    j: int,
    e: GraphEdge,
) -> bool {
    &&& 0 <= i < all.len()
    &&& 0 <= j < input_defs(all[i]@).len()
    &&& last_producer_before(all, all.len() as int, input_defs(all[i]@)[j].name@) >= 0
    &&& e.from as int == last_producer_before(all, all.len() as int, input_defs(all[i]@)[j].name@)
        + 1
    &&& e.to as int == i + 1
    &&& e.requirement == Some(input_defs(all[i]@)[j])
}

/// Some input of component `i` is produced by a different component.
pub open spec fn component_has_dependencies(all: Seq<Vec<RequirementDefinition>>, i: int) -> bool {
    exists|j: int|
        0 <= j < input_defs(all[i]@).len() && last_producer_before(
            all,
            all.len() as int,
            (#[trigger] input_defs(all[i]@)[j]).name@,
        ) >= 0 && last_producer_before(all, all.len() as int, input_defs(all[i]@)[j].name@) != i
}

/// Whether `e` is the link from the initial node to component `i`,
/// recorded when the component has no dependencies.
pub open spec fn initial_edge_at(all: Seq<Vec<RequirementDefinition>>, i: int, e: GraphEdge) -> bool {
    &&& 0 <= i < all.len()
    &&& !component_has_dependencies(all, i)
    &&& e.from == 0
    &&& e.to as int == i + 1
    &&& e.requirement is None
}

/// Every edge of a built graph is one of the three recorded kinds.
pub open spec fn is_build_edge(all: Seq<Vec<RequirementDefinition>>, e: GraphEdge) -> bool {
    ||| exists|i: int, j: int| chain_edge_at(all, i, j, e)
    ||| exists|i: int, j: int| input_edge_at(all, i, j, e)
    ||| exists|i: int| initial_edge_at(all, i, e)
}

/// The chain edge for output `j` of component `i` is present.
pub open spec fn has_chain_edge(
    all: Seq<Vec<RequirementDefinition>>,
    edges: Seq<GraphEdge>,
    i: int,
    j: int,
) -> bool {
    exists|k: int| 0 <= k < edges.len() && chain_edge_at(all, i, j, #[trigger] edges[k])
}

/// The input edge for input `j` of component `i` is present.
pub open spec fn has_input_edge(
    all: Seq<Vec<RequirementDefinition>>,
    edges: Seq<GraphEdge>,
    i: int,
    j: int,
) -> bool {
    exists|k: int| 0 <= k < edges.len() && input_edge_at(all, i, j, #[trigger] edges[k])
}

/// The initial-node link for component `i` is present.
pub open spec fn has_initial_edge(
    all: Seq<Vec<RequirementDefinition>>,
    edges: Seq<GraphEdge>,
    i: int,
) -> bool {
    exists|k: int| 0 <= k < edges.len() && initial_edge_at(all, i, #[trigger] edges[k])
}

/// Appending an edge keeps every previously present edge present.
proof fn lemma_has_edges_push(all: Seq<Vec<RequirementDefinition>>, edges: Seq<GraphEdge>, e: GraphEdge)
    ensures
        forall|i: int, j: int|
            #[trigger] has_chain_edge(all, edges, i, j) ==> has_chain_edge(all, edges.push(e), i, j),
        forall|i: int, j: int|
            #[trigger] has_input_edge(all, edges, i, j) ==> has_input_edge(all, edges.push(e), i, j),
        forall|i: int|
            #[trigger] has_initial_edge(all, edges, i) ==> has_initial_edge(all, edges.push(e), i),
{
    assert forall|i: int, j: int|
        #[trigger] has_chain_edge(all, edges, i, j) implies has_chain_edge(
        all,
        edges.push(e),
        i,
        j,
    ) by {
        let k = choose|k: int| 0 <= k < edges.len() && chain_edge_at(all, i, j, #[trigger] edges[k]);
        assert(edges.push(e)[k] == edges[k]);
        assert(chain_edge_at(all, i, j, edges.push(e)[k]));
    }
    assert forall|i: int, j: int|
        #[trigger] has_input_edge(all, edges, i, j) implies has_input_edge(
        all,
        edges.push(e),
        i,
        j,
    ) by {
        let k = choose|k: int| 0 <= k < edges.len() && input_edge_at(all, i, j, #[trigger] edges[k]);
        assert(edges.push(e)[k] == edges[k]);
        assert(input_edge_at(all, i, j, edges.push(e)[k]));
    }
    assert forall|i: int| #[trigger] has_initial_edge(all, edges, i) implies has_initial_edge(
        all,
        edges.push(e),
        i,
    ) by {
        let k = choose|k: int| 0 <= k < edges.len() && initial_edge_at(all, i, #[trigger] edges[k]);
        assert(edges.push(e)[k] == edges[k]);
        assert(initial_edge_at(all, i, edges.push(e)[k]));
    }
}

/// The whole shape a built graph has over declarations `all`: every
/// edge is one of the three recorded kinds, and every recorded kind's
/// edge is present.
pub open spec fn built_graph_matches(all: Seq<Vec<RequirementDefinition>>, edges: Seq<GraphEdge>) -> bool {
    &&& edges_bounded(edges, all.len() as int + 1)
    &&& forall|k: int| 0 <= k < edges.len() ==> is_build_edge(all, #[trigger] edges[k])
    &&& forall|i: int, j: int|
        #![trigger output_defs(all[i]@)[j]]
        0 <= i < all.len() && 0 <= j < output_defs(all[i]@).len() && last_producer_before(
            all,
            i,
            output_defs(all[i]@)[j].name@,
        ) >= 0 ==> has_chain_edge(all, edges, i, j)
    &&& forall|i: int, j: int|
        #![trigger input_defs(all[i]@)[j]]
        0 <= i < all.len() && 0 <= j < input_defs(all[i]@).len() && last_producer_before(
            all,
            all.len() as int,
            input_defs(all[i]@)[j].name@,
        ) >= 0 ==> has_input_edge(all, edges, i, j)
    &&& forall|i: int|
        0 <= i < all.len() && !component_has_dependencies(all, i) ==> has_initial_edge(
            all,
            edges,
            i,
        )
}

/// Builds the dependency graph of the declared requirements: one chain
/// edge per output that overrides an earlier producer of record, one
/// edge per required input from its producer of record (a self-loop for
/// a variable its component carries across steps), and a link from the
/// initial node to every component without dependencies — exactly these
/// edges, and no others.
pub fn build_graph(all_defs: &Vec<Vec<RequirementDefinition>>) -> (edges: Vec<GraphEdge>)
    ensures
        built_graph_matches(all_defs@, edges@),
{
    let n = all_defs.len();
    let mut edges: Vec<GraphEdge> = Vec::new();
    let mut i: usize = 0;
    while i < n
        invariant
            i <= n,
            n == all_defs@.len(),
            edges_bounded(edges@, n as int + 1),
            forall|k: int| 0 <= k < edges@.len() ==> is_build_edge(all_defs@, #[trigger] edges@[k]),
            forall|i2: int, j2: int|
                #![trigger output_defs(all_defs@[i2]@)[j2]]
                0 <= i2 < i && 0 <= j2 < output_defs(all_defs@[i2]@).len()
                    && last_producer_before(all_defs@, i2, output_defs(all_defs@[i2]@)[j2].name@)
                    >= 0 ==> has_chain_edge(all_defs@, edges@, i2, j2),
        decreases n - i,
    {
        let outs = outputs(&all_defs[i]);
        let m = outs.len();
        let mut j: usize = 0;
        while j < m
            invariant
                i < n,
                j <= m,
                n == all_defs@.len(),
                m == output_defs(all_defs@[i as int]@).len(),
                outs@ == output_defs(all_defs@[i as int]@),
                edges_bounded(edges@, n as int + 1),
                forall|k: int|
                    0 <= k < edges@.len() ==> is_build_edge(all_defs@, #[trigger] edges@[k]),
                forall|i2: int, j2: int|
                    #![trigger output_defs(all_defs@[i2]@)[j2]]
                    0 <= i2 < i && 0 <= j2 < output_defs(all_defs@[i2]@).len()
                        && last_producer_before(
                        all_defs@,
                        i2,
                        output_defs(all_defs@[i2]@)[j2].name@,
                    ) >= 0 ==> has_chain_edge(all_defs@, edges@, i2, j2),
                forall|j2: int|
                    #![trigger output_defs(all_defs@[i as int]@)[j2]]
                    0 <= j2 < j && last_producer_before(
                        all_defs@,
                        i as int,
                        output_defs(all_defs@[i as int]@)[j2].name@,
                    ) >= 0 ==> has_chain_edge(all_defs@, edges@, i as int, j2),
            decreases m - j,
        {
            let found = find_last_producer(all_defs, i, &outs[j].name);
            proof {
                lemma_has_edges_push(
                    all_defs@,
                    edges@,
                    GraphEdge { from: 0, to: 0, requirement: None },
                );
            }
            match found {
                Some(p) => {
                    proof {
                        lemma_last_producer_range(all_defs@, i as int, outs@[j as int].name@);
                    }
                    let ghost before = edges@;
                    let e = GraphEdge { from: p + 1, to: i + 1, requirement: Some(clone_def(&outs[j])) };
                    edges.push(e);
                    proof {
                        lemma_has_edges_push(all_defs@, before, e);
                        assert(chain_edge_at(all_defs@, i as int, j as int, e));
                        assert(edges@[edges@.len() - 1] == e);
                    }
                },
                None => {},
            }
            j = j + 1;
        }
        i = i + 1;
    }
    let mut i: usize = 0;
    while i < n
        invariant
            i <= n,
            n == all_defs@.len(),
            edges_bounded(edges@, n as int + 1),
            forall|k: int| 0 <= k < edges@.len() ==> is_build_edge(all_defs@, #[trigger] edges@[k]),
            forall|i2: int, j2: int|
                #![trigger output_defs(all_defs@[i2]@)[j2]]
                0 <= i2 < n && 0 <= j2 < output_defs(all_defs@[i2]@).len()
                    && last_producer_before(all_defs@, i2, output_defs(all_defs@[i2]@)[j2].name@)
                    >= 0 ==> has_chain_edge(all_defs@, edges@, i2, j2),
            forall|i2: int, j2: int|
                #![trigger input_defs(all_defs@[i2]@)[j2]]
                0 <= i2 < i && 0 <= j2 < input_defs(all_defs@[i2]@).len()
                    && last_producer_before(
                    all_defs@,
                    n as int,
                    input_defs(all_defs@[i2]@)[j2].name@,
                ) >= 0 ==> has_input_edge(all_defs@, edges@, i2, j2),
            forall|i2: int|
                0 <= i2 < i && !component_has_dependencies(all_defs@, i2) ==> has_initial_edge(
                    all_defs@,
                    edges@,
                    i2,
                ),
        decreases n - i,
    {
        let ins = inputs(&all_defs[i]);
        let m = ins.len();
        let mut has_dependencies = false;
        let mut j: usize = 0;
        while j < m
            invariant
                i < n,
                j <= m,
                n == all_defs@.len(),
                m == input_defs(all_defs@[i as int]@).len(),
                ins@ == input_defs(all_defs@[i as int]@),
                edges_bounded(edges@, n as int + 1),
                forall|k: int|
                    0 <= k < edges@.len() ==> is_build_edge(all_defs@, #[trigger] edges@[k]),
                forall|i2: int, j2: int|
                    #![trigger output_defs(all_defs@[i2]@)[j2]]
                    0 <= i2 < n && 0 <= j2 < output_defs(all_defs@[i2]@).len()
                        && last_producer_before(
                        all_defs@,
                        i2,
                        output_defs(all_defs@[i2]@)[j2].name@,
                    ) >= 0 ==> has_chain_edge(all_defs@, edges@, i2, j2),
                forall|i2: int, j2: int|
                    #![trigger input_defs(all_defs@[i2]@)[j2]]
                    0 <= i2 < i && 0 <= j2 < input_defs(all_defs@[i2]@).len()
                        && last_producer_before(
                        all_defs@,
                        n as int,
                        input_defs(all_defs@[i2]@)[j2].name@,
                    ) >= 0 ==> has_input_edge(all_defs@, edges@, i2, j2),
                forall|i2: int|
                    0 <= i2 < i && !component_has_dependencies(all_defs@, i2) ==> has_initial_edge(
                        all_defs@,
                        edges@,
                        i2,
                    ),
                forall|j2: int|
                    #![trigger input_defs(all_defs@[i as int]@)[j2]]
                    0 <= j2 < j && last_producer_before(
                        all_defs@,
                        n as int,
                        input_defs(all_defs@[i as int]@)[j2].name@,
                    ) >= 0 ==> has_input_edge(all_defs@, edges@, i as int, j2),
                has_dependencies == (exists|j2: int|
                    0 <= j2 < j && last_producer_before(
                        all_defs@,
                        n as int,
                        (#[trigger] input_defs(all_defs@[i as int]@)[j2]).name@,
                    ) >= 0 && last_producer_before(
                        all_defs@,
                        n as int,
                        input_defs(all_defs@[i as int]@)[j2].name@,
                    ) != i as int),
            decreases m - j,
        {
            let found = find_last_producer(all_defs, n, &ins[j].name);
            match found {
                Some(p) => {
                    proof {
                        lemma_last_producer_range(all_defs@, n as int, ins@[j as int].name@);
                    }
                    let ghost before = edges@;
                    let e = GraphEdge { from: p + 1, to: i + 1, requirement: Some(clone_def(&ins[j])) };
                    edges.push(e);
                    proof {
                        lemma_has_edges_push(all_defs@, before, e);
                        assert(input_edge_at(all_defs@, i as int, j as int, e));
                        assert(edges@[edges@.len() - 1] == e);
                    }
                    if p != i {
                        has_dependencies = true;
                    }
                },
                None => {},
            }
            j = j + 1;
        }
        if !has_dependencies {
            let ghost before = edges@;
            let e = GraphEdge { from: 0, to: i + 1, requirement: None };
            edges.push(e);
            proof {
                lemma_has_edges_push(all_defs@, before, e);
                assert(!component_has_dependencies(all_defs@, i as int));
                assert(initial_edge_at(all_defs@, i as int, e));
                assert(edges@[edges@.len() - 1] == e);
            }
        }
        i = i + 1;
    }
    edges
}

/// A definition name has a source: an initial value, a producer of
/// record among the components, or a supplied exogenous series.
pub open spec fn variable_sourced(
    all: Seq<Vec<RequirementDefinition>>,
    initial: Seq<(String, Scalar)>,
    exogenous: Seq<TimeseriesItem>,
    name: Seq<char>,
) -> bool {
    ||| contains_key(initial, name)
    ||| last_producer_before(all, all.len() as int, name) >= 0
    ||| contains_name(exogenous, name)
}

/// The series built for one definition: seeded at the first index from
/// an initial value, empty for a produced variable, or a copy of the
/// supplied exogenous series.
pub open spec fn built_entry(
    all: Seq<Vec<RequirementDefinition>>,
    initial: Seq<(String, Scalar)>,
    exogenous: Seq<TimeseriesItem>,
    axis_bounds: Seq<Scalar>,
    d: VariableDefinition,
    item: TimeseriesItem,
) -> bool {
    &&& item.name == d.name
    &&& if contains_key(initial, d.name@) {
        &&& item.variable_type is Endogenous
        &&& item.timeseries.units == d.unit
        &&& item.timeseries.time_axis.bounds@ == axis_bounds
        &&& item.timeseries.interpolation_strategy == (InterpolationStrategy::Linear(
            Interp1dLinearSpline { allow_extrapolation: true },
        ))
        &&& item.timeseries.values@ == Seq::new(
            (axis_bounds.len() - 1) as nat,
            |j: int| Scalar { raw: MISSING_RAW },
        ).update(0, value_of(initial, d.name@))
        &&& item.timeseries.latest as int == (if !value_of(initial, d.name@).missing_spec() {
            0int
        } else {
            -1
        })
    } else if last_producer_before(all, all.len() as int, d.name@) >= 0 {
        &&& item.variable_type is Endogenous
        &&& item.timeseries.units == d.unit
        &&& item.timeseries.time_axis.bounds@ == axis_bounds
        &&& item.timeseries.interpolation_strategy == (InterpolationStrategy::Linear(
            Interp1dLinearSpline { allow_extrapolation: true },
        ))
        &&& item.timeseries.values@ == Seq::new(
            (axis_bounds.len() - 1) as nat,
            |j: int| Scalar { raw: MISSING_RAW },
        )
        &&& item.timeseries.latest == -1
    } else {
        &&& contains_name(exogenous, d.name@)
        &&& item.variable_type is Exogenous
        &&& ({
            let src = exogenous[index_of_name(exogenous, d.name@)].timeseries;
            &&& item.timeseries.units == src.units
            &&& item.timeseries.values@ == src.values@
            &&& item.timeseries.time_axis.bounds@ == src.time_axis.bounds@
            &&& item.timeseries.latest == src.latest
            &&& item.timeseries.interpolation_strategy == src.interpolation_strategy
        })
    }
}

/// Prepares the collection for a build: one series per gathered
/// definition — seeded from an initial value, empty for a produced
/// variable, or copied from the supplied exogenous data, in that order
/// of preference.  Succeeds exactly when every definition has one of
/// the three sources; a definition with none fails with
/// `MissingExogenousData`.
pub fn build_collection(
    definitions: &Vec<VariableDefinition>,
    all_defs: &Vec<Vec<RequirementDefinition>>,
    initial_values: &InputState,
    exogenous_variables: &TimeseriesCollection,
    time_axis: &TimeAxis,
) -> (r: RSCMResult<TimeseriesCollection>)
    requires
        defs_unique(definitions@),
        state_inv(initial_values.state@),
        exogenous_variables.wf(),
        time_axis.wf(),
    ensures
        r is Ok <==> (forall|d: int|
            0 <= d < definitions@.len() ==> variable_sourced(
                all_defs@,
                initial_values.state@,
                exogenous_variables.timeseries@,
                (#[trigger] definitions@[d]).name@,
            )),
        r matches Err(e) ==> e is MissingExogenousData,
        r matches Ok(c) ==> c.wf() && c.timeseries@.len() == definitions@.len() && (forall|d: int|
            0 <= d < definitions@.len() ==> built_entry(
                all_defs@,
                initial_values.state@,
                exogenous_variables.timeseries@,
                time_axis.bounds@,
                #[trigger] definitions@[d],
                c.timeseries@[d],
            )),
{
    let mut collection = TimeseriesCollection::new();
    let n_defs = definitions.len();
    let mut d: usize = 0;
    while d < n_defs
        invariant
            d <= n_defs,
            n_defs == definitions@.len(),
            defs_unique(definitions@),
            state_inv(initial_values.state@),
            exogenous_variables.wf(),
            time_axis.wf(),
            collection.wf(),
            collection.timeseries@.len() == d,
            forall|e: int|
                0 <= e < d ==> (#[trigger] collection.timeseries@[e]).name
                    == definitions@[e].name,
            forall|e: int|
                0 <= e < d ==> built_entry(
                    all_defs@,
                    initial_values.state@,
                    exogenous_variables.timeseries@,
                    time_axis.bounds@,
                    #[trigger] definitions@[e],
                    collection.timeseries@[e],
                ),
            forall|e: int|
                0 <= e < d ==> variable_sourced(
                    all_defs@,
                    initial_values.state@,
                    exogenous_variables.timeseries@,
                    (#[trigger] definitions@[e]).name@,
                ),
        decreases n_defs - d,
    {
        let name = definitions[d].name.clone();
        let unit = definitions[d].unit.clone();
        let default_strategy = InterpolationStrategy::Linear(Interp1dLinearSpline::new(true));
        let ts: Timeseries;
        let kind: VariableType;
        if initial_values.has(name.as_str()) {
            proof {
                lemma_first_index_in_range(initial_values.state@, name@);
            }
            let value = initial_values.get(name.as_str());
            let mut seeded = Timeseries::new_empty(time_axis.duplicate(), unit, default_strategy);
            let ghost empty_values = seeded.values@;
            seeded.set(0, value);
            proof {
                assert(seeded.values@ =~= Seq::new(
                    (time_axis.bounds@.len() - 1) as nat,
                    |j: int| Scalar { raw: MISSING_RAW },
                ).update(0, value));
            }
            ts = seeded;
            kind = VariableType::Endogenous;
        } else {
            let produced = find_last_producer(all_defs, all_defs.len(), &name);
            match produced {
                Some(_) => {
                    let empty = Timeseries::new_empty(
                        time_axis.duplicate(),
                        unit,
                        default_strategy,
                    );
                    proof {
                        assert(empty.values@ =~= Seq::new(
                            (time_axis.bounds@.len() - 1) as nat,
                            |j: int| Scalar { raw: MISSING_RAW },
                        ));
                    }
                    ts = empty;
                    kind = VariableType::Endogenous;
                },
                None => {
                    let supplied = exogenous_variables.get_timeseries_by_name(name.as_str());
                    match supplied {
                        Some(ts_ref) => {
                            proof {
                                assert(exogenous_variables.timeseries@[index_of_name(
                                    exogenous_variables.timeseries@,
                                    name@,
                                )].timeseries.wf());
                            }
                            ts = ts_ref.duplicate();
                            kind = VariableType::Exogenous;
                        },
                        None => {
                            return Err(RSCMError::MissingExogenousData { name });
                        },
                    }
                },
            }
        }
        let ghost items_before = collection.timeseries@;
        proof {
            if contains_name(collection.timeseries@, name@) {
                let e0 = index_of_name(collection.timeseries@, name@);
                assert(0 <= e0 < collection.timeseries@.len()
                    && collection.timeseries@[e0].name@ == name@);
                assert(definitions@[e0].name@ != definitions@[d as int].name@);
            }
        }
        let added = collection.add_timeseries(name, ts, kind);
        match added {
            Ok(()) => {},
            Err(_) => {
                proof {
                    assert(false);
                }
            },
        }
        d = d + 1;
    }
    Ok(collection)
}

/// The graph stems from some run of declarations, one per component:
/// exactly the recorded chain, input and initial-node edges.
pub open spec fn from_declared_graph(n_components: int, graph: Seq<GraphEdge>) -> bool {
    exists|declared: Seq<Vec<RequirementDefinition>>|
        declared.len() == n_components && #[trigger] built_graph_matches(declared, graph)
}

/// Builds a model from registered components, exogenous data, initial
/// values and a time axis.
pub struct ModelBuilder<C> {
    pub components: Vec<C>,
    pub exogenous_variables: TimeseriesCollection,
    pub initial_values: InputState,
    pub time_axis: TimeAxis,
}

impl<C: Component> ModelBuilder<C> {
    /// A valid builder: valid axis, store and components, and initial
    /// values that are finite or missing.
    pub open spec fn wf(&self) -> bool {
        &&& self.time_axis.wf()
        &&& self.exogenous_variables.wf()
        &&& state_inv(self.initial_values.state@)
        &&& self.components@.len() < usize::MAX
    }

    /// An empty builder over the default decimal-year axis: steps of one
    /// year from 2000 up to 2100.
    pub fn new() -> (r: ModelBuilder<C>)
        ensures
            r.wf(),
            r.components@.len() == 0,
            r.exogenous_variables.timeseries@.len() == 0,
            r.initial_values.state@.len() == 0,
            r.time_axis.bounds@.len() == 101,
            forall|i: int|
                0 <= i < 101 ==> (#[trigger] r.time_axis.bounds@[i])@ == 2_000_000_000 + i
                    * 1_000_000,
    {
        let mut bounds: Vec<Scalar> = Vec::new();
        let mut i: usize = 0;
        while i < 101
            invariant
                i <= 101,
                bounds@.len() == i,
                forall|j: int|
                    0 <= j < i ==> (#[trigger] bounds@[j])@ == 2_000_000_000 + j * 1_000_000,
            decreases 101 - i,
        {
            bounds.push(Scalar { raw: 2_000_000_000 + (i as i64) * 1_000_000 });
            i = i + 1;
        }
        proof {
            assert forall|a: int, b: int|
                #![trigger bounds@[a], bounds@[b]]
                0 <= a < b < bounds@.len() implies bounds@[a]@ < bounds@[b]@ by {}
            assert forall|a: int| 0 <= a < bounds@.len() implies (#[trigger] bounds@[a]).finite()
                by {}
        }
        let axis = match TimeAxis::new(bounds) {
            Some(a) => a,
            None => unreached(),
        };
        ModelBuilder {
            components: Vec::new(),
            exogenous_variables: TimeseriesCollection::new(),
            initial_values: InputState::empty(),
            time_axis: axis,
        }
    }

    /// Registers a component.
    pub fn with_component(self, component: C) -> (r: ModelBuilder<C>)
        requires
            self.wf(),
            self.components@.len() + 1 < usize::MAX,
        ensures
            r.wf(),
            r.components@ == self.components@.push(component),
            r.exogenous_variables == self.exogenous_variables,
            r.initial_values == self.initial_values,
            r.time_axis == self.time_axis,
    {
        let mut components = self.components;
        components.push(component);
        ModelBuilder {
            components,
            exogenous_variables: self.exogenous_variables,
            initial_values: self.initial_values,
            time_axis: self.time_axis,
        }
    }

    /// Supplies exogenous data under a name; a later registration of the
    /// same name replaces the earlier one.
    pub fn with_exogenous_variable(self, name: &str, timeseries: Timeseries) -> (r: ModelBuilder<
        C,
    >)
        requires
            self.wf(),
            timeseries.wf(),
        ensures
            r.wf(),
            r.components@ == self.components@,
            r.initial_values == self.initial_values,
            r.time_axis == self.time_axis,
            crate::timeseries_collection::contains_name(
                r.exogenous_variables.timeseries@,
                name@,
            ),
    {
        let mut exogenous_variables = self.exogenous_variables;
        exogenous_variables.upsert(
            TimeseriesItem {
                timeseries,
                name: String::from_str(name),
                variable_type: VariableType::Exogenous,
            },
        );
        ModelBuilder {
            components: self.components,
            exogenous_variables,
            initial_values: self.initial_values,
            time_axis: self.time_axis,
        }
    }

    /// Supplies a whole collection of exogenous data; entries replace
    /// earlier registrations of the same names.
    pub fn with_exogenous_collection(self, collection: TimeseriesCollection) -> (r: ModelBuilder<
        C,
    >)
        requires
            self.wf(),
            collection.wf(),
        ensures
            r.wf(),
            r.components@ == self.components@,
            r.initial_values == self.initial_values,
            r.time_axis == self.time_axis,
    {
        let mut exogenous_variables = self.exogenous_variables;
        let mut items = collection.into_iter();
        while items.len() > 0
            invariant
                exogenous_variables.wf(),
                forall|i: int| 0 <= i < items@.len() ==> (#[trigger] items@[i]).timeseries.wf(),
            decreases items@.len(),
        {
            let item = items.remove(0);
            proof {
                assert forall|i: int| 0 <= i < items@.len() implies (
                #[trigger] items@[i]).timeseries.wf() by {}
            }
            exogenous_variables.upsert(item);
        }
        ModelBuilder {
            components: self.components,
            exogenous_variables,
            initial_values: self.initial_values,
            time_axis: self.time_axis,
        }
    }

    /// Adds initial values for variables carried across steps; later
    /// values override earlier ones by name.
    pub fn with_initial_values(self, initial_values: InputState) -> (r: ModelBuilder<C>)
        requires
            self.wf(),
            state_inv(initial_values.state@),
        ensures
            r.wf(),
            r.components@ == self.components@,
            r.exogenous_variables == self.exogenous_variables,
            r.time_axis == self.time_axis,
            r.initial_values.state@ == merge_all(
                self.initial_values.state@,
                initial_values.state@,
            ),
    {
        let mut merged = self.initial_values;
        proof {
            lemma_merge_all_inv(merged.state@, initial_values.state@);
        }
        merged.merge(initial_values);
        ModelBuilder {
            components: self.components,
            exogenous_variables: self.exogenous_variables,
            initial_values: merged,
            time_axis: self.time_axis,
        }
    }

    /// Installs the time axis the model will iterate on.
    pub fn with_time_axis(self, time_axis: TimeAxis) -> (r: ModelBuilder<C>)
        requires
            self.wf(),
            time_axis.wf(),
        ensures
            r.wf(),
            r.components@ == self.components@,
            r.exogenous_variables == self.exogenous_variables,
            r.initial_values == self.initial_values,
            r.time_axis == time_axis,
    {
        ModelBuilder {
            components: self.components,
            exogenous_variables: self.exogenous_variables,
            initial_values: self.initial_values,
            time_axis,
        }
    }

    /// Builds the dependency graph and the prepared collection.
    ///
    /// Each required input is linked from its producer (a self-loop for
    /// a variable its own component carries across steps); a component
    /// without dependencies on other components is linked from the
    /// initial node.  Units must agree wherever one name is declared
    /// twice; non-self cycles are rejected; every variable gets a series:
    /// seeded from an initial value, empty for produced variables, or
    /// copied from the supplied exogenous data.  A required variable with
    /// none of these gets no series; components that read it report
    /// `MissingExogenousData` when their state is extracted.
    pub fn build(self) -> (r: RSCMResult<Model<C>>)
        requires
            self.wf(),
        ensures
            r matches Ok(m) ==> m.wf() && m.time_index == 0 && m.initial_node == 0
                && m.time_axis.bounds@ == self.time_axis.bounds@ && m.components@
                == self.components@,
            r matches Ok(m) ==> from_declared_graph(m.components@.len() as int, m.graph@),
            r matches Err(e) ==> (e is UnitMismatch || e is CycleDetected
                || e is MissingExogenousData),
    {
        let n = self.components.len();
        let mut all_defs: Vec<Vec<RequirementDefinition>> = Vec::new();
        let mut i: usize = 0;
        while i < n
            invariant
                i <= n,
                n == self.components@.len(),
                all_defs@.len() == i,
            decreases n - i,
        {
            all_defs.push(self.components[i].definitions());
            i = i + 1;
        }
        let flat = flatten_definitions(&all_defs);
        let gathered = gather_definitions(&flat);
        let definitions = match gathered {
            Ok(defs) => defs,
            Err(e) => {
                return Err(e);
            },
        };
        let edges = build_graph(&all_defs);
        if !is_valid_graph(n + 1, &edges) {
            return Err(RSCMError::CycleDetected);
        }
        let built = build_collection(
            &definitions,
            &all_defs,
            &self.initial_values,
            &self.exogenous_variables,
            &self.time_axis,
        );
        let collection = match built {
            Ok(c) => c,
            Err(e) => {
                return Err(e);
            },
        };
        proof {
            assert(built_graph_matches(all_defs@, edges@));
        }
        let model = Model::new(self.components, edges, 0, collection, self.time_axis);
        proof {
            assert(built_graph_matches(all_defs@, model.graph@));
            assert(all_defs@.len() == model.components@.len());
            assert(from_declared_graph(model.components@.len() as int, model.graph@));
        }
        Ok(model)
    }
}

} // verus!
