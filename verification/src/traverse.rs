//! Bounded depth-first traversal of the hypergraph.
//!
//! Both the cascade simulation and the network-effect analysis walk
//! the graph the same way: a LIFO frontier of `(node, strength, depth)`
//! frames, a visited set, per-hop attenuation through the strongest
//! shared edge, and a floor below which propagation stops.  The
//! traversal is specified by the recursive [`traverse_rec`], which the
//! executable [`run_traversal`] follows frame by frame.

use vstd::prelude::*;

use crate::fixed::{ONE, MAX_LEVEL, fx_mul, lemma_fx_mul_le, mul_rate};
use crate::hypergraph::{HyperGraph, HyperNode, ids_contain};

verus! {

/// Propagation below this fixed-point strength stops (0.01).
pub const CASCADE_FLOOR: u64 = 10_000;

/// One frontier entry of the traversal.
#[derive(Debug, Clone, Copy)]
pub struct Frame {
    pub id: u128,
    pub strength: u64,
    pub depth: usize,
}

/// How many stored nodes are not yet visited.
pub open spec fn unvisited_count(nodes: Seq<HyperNode>, visited: Set<u128>) -> nat
    decreases nodes.len(),
{
    if nodes.len() == 0 {
        0
    } else {
        unvisited_count(nodes.drop_last(), visited) + if visited.contains(nodes.last().id) {
            0nat
        } else {
            1nat
        }
    }
}

/// Growing the visited set cannot grow the count.
pub proof fn lemma_unvisited_monotone(nodes: Seq<HyperNode>, v1: Set<u128>, v2: Set<u128>)
    requires
        v1.subset_of(v2),
    ensures
        unvisited_count(nodes, v2) <= unvisited_count(nodes, v1),
    decreases nodes.len(),
{
    if nodes.len() > 0 {
        lemma_unvisited_monotone(nodes.drop_last(), v1, v2);
    }
}

/// Visiting a stored, unvisited node shrinks the count.
pub proof fn lemma_unvisited_insert(nodes: Seq<HyperNode>, v: Set<u128>, x: u128)
    requires
        !v.contains(x),
        exists|i: int| 0 <= i < nodes.len() && (#[trigger] nodes[i]).id == x,
    ensures
        unvisited_count(nodes, v.insert(x)) < unvisited_count(nodes, v),
    decreases nodes.len(),
{
    let last = nodes.last();
    if last.id == x {
        lemma_unvisited_monotone(nodes.drop_last(), v, v.insert(x));
    } else {
        let i = choose|i: int| 0 <= i < nodes.len() && (#[trigger] nodes[i]).id == x;
        assert(nodes.drop_last()[i] == nodes[i]);
        lemma_unvisited_insert(nodes.drop_last(), v, x);
    }
}

/// Visiting an id the store does not hold leaves the count alone.
pub proof fn lemma_unvisited_insert_absent(nodes: Seq<HyperNode>, v: Set<u128>, x: u128)
    requires
        forall|i: int| 0 <= i < nodes.len() ==> (#[trigger] nodes[i]).id != x,
    ensures
        unvisited_count(nodes, v.insert(x)) == unvisited_count(nodes, v),
    decreases nodes.len(),
{
    if nodes.len() > 0 {
        assert forall|i: int|
            0 <= i < nodes.drop_last().len() implies (#[trigger] nodes.drop_last()[i]).id != x by {
            assert(nodes.drop_last()[i] == nodes[i]);
        }
        lemma_unvisited_insert_absent(nodes.drop_last(), v, x);
        assert(nodes.last().id != x);
    }
}

/// What one edge contributes to the conductance toward `nb`: its
/// conductance when it joins the pair, zero otherwise.
pub open spec fn edge_gain(g: HyperGraph, e: u128, nb: u128) -> u64 {
    if g.has_edge(e) && g.edge_at(e).node_ids@.contains(nb) {
        g.edge_at(e).conductance
    } else {
        0
    }
}

/// The strongest contribution among these edges.
pub open spec fn max_cond_prefix(g: HyperGraph, eids: Seq<u128>, nb: u128) -> u64
    decreases eids.len(),
{
    if eids.len() == 0 {
        0
    } else {
        let rest = max_cond_prefix(g, eids.drop_last(), nb);
        let c = edge_gain(g, eids.last(), nb);
        if c >= rest {
            c
        } else {
            rest
        }
    }
}

/// The strongest conductance of an edge shared by `cur` and `nb`.
pub open spec fn max_conductance(g: HyperGraph, cur: u128, nb: u128) -> u64 {
    max_cond_prefix(g, g.incident_edges(cur), nb)
}

/// Conductances are rates, so the maximum is one too.
pub proof fn lemma_max_cond_bound(g: HyperGraph, eids: Seq<u128>, nb: u128)
    requires
        g.wf(),
    ensures
        max_cond_prefix(g, eids, nb) <= ONE,
    decreases eids.len(),
{
    if eids.len() > 0 {
        lemma_max_cond_bound(g, eids.drop_last(), nb);
        let e = eids.last();
        if g.has_edge(e) {
            g.lemma_edge_index(e);
        }
    }
}

/// The strength that reaches `nb` from `cur`: attenuated by the
/// strongest shared edge and by the per-hop rate.
pub open spec fn propagated_strength(g: HyperGraph, cur: u128, nb: u128, s: u64, rate: u64) -> int {
    fx_mul(fx_mul(s as int, max_conductance(g, cur, nb) as int), rate as int)
}

/// The frames a visit pushes: one per yet-unvisited neighbour that the
/// attenuated strength still reaches, in neighbour order.
pub open spec fn expand_frames(
    g: HyperGraph,
    cur: u128,
    s: u64,
    depth: usize,
    nbs: Seq<u128>,
    visited: Set<u128>,
    rate: u64,
) -> Seq<Frame>
    decreases nbs.len(),
{
    if nbs.len() == 0 {
        Seq::empty()
    } else {
        let nb = nbs[0];
        let head: Seq<Frame> = if !visited.contains(nb) && propagated_strength(g, cur, nb, s, rate)
            > CASCADE_FLOOR as int {
            seq![
                Frame {
                    id: nb,
                    strength: propagated_strength(g, cur, nb, s, rate) as u64,
                    depth: (depth + 1) as usize,
                },
            ]
        } else {
            Seq::empty()
        };
        head + expand_frames(g, cur, s, depth, nbs.drop_first(), visited, rate)
    }
}

/// Expanding one more neighbour appends its frame, if any.
pub proof fn lemma_expand_snoc(
    g: HyperGraph,
    cur: u128,
    s: u64,
    depth: usize,
    nbs: Seq<u128>,
    nb: u128,
    visited: Set<u128>,
    rate: u64,
)
    ensures
        expand_frames(g, cur, s, depth, nbs.push(nb), visited, rate) == expand_frames(
            g,
            cur,
            s,
            depth,
            nbs,
            visited,
            rate,
        ) + (if !visited.contains(nb) && propagated_strength(g, cur, nb, s, rate)
            > CASCADE_FLOOR as int {
            seq![
                Frame {
                    id: nb,
                    strength: propagated_strength(g, cur, nb, s, rate) as u64,
                    depth: (depth + 1) as usize,
                },
            ]
        } else {
            Seq::empty()
        }),
    decreases nbs.len(),
{
    let tail: Seq<Frame> = if !visited.contains(nb) && propagated_strength(g, cur, nb, s, rate)
        > CASCADE_FLOOR as int {
        seq![
            Frame {
                id: nb,
                strength: propagated_strength(g, cur, nb, s, rate) as u64,
                depth: (depth + 1) as usize,
            },
        ]
    } else {
        Seq::empty()
    };
    if nbs.len() == 0 {
        assert(nbs.push(nb)[0] == nb);
        assert(nbs.push(nb).drop_first() =~= Seq::<u128>::empty());
        assert(expand_frames(g, cur, s, depth, Seq::empty(), visited, rate)
            =~= Seq::<Frame>::empty());
        assert(expand_frames(g, cur, s, depth, nbs.push(nb), visited, rate) =~= tail);
        assert(expand_frames(g, cur, s, depth, nbs, visited, rate) + tail =~= tail);
    } else {
        assert(nbs.push(nb)[0] == nbs[0]);
        assert(nbs.push(nb).drop_first() =~= nbs.drop_first().push(nb));
        lemma_expand_snoc(g, cur, s, depth, nbs.drop_first(), nb, visited, rate);
        let head: Seq<Frame> = if !visited.contains(nbs[0]) && propagated_strength(
            g,
            cur,
            nbs[0],
            s,
            rate,
        ) > CASCADE_FLOOR as int {
            seq![
                Frame {
                    id: nbs[0],
                    strength: propagated_strength(g, cur, nbs[0], s, rate) as u64,
                    depth: (depth + 1) as usize,
                },
            ]
        } else {
            Seq::empty()
        };
        assert(head + (expand_frames(g, cur, s, depth, nbs.drop_first(), visited, rate) + tail)
            =~= (head + expand_frames(g, cur, s, depth, nbs.drop_first(), visited, rate)) + tail);
    }
}

/// Every pushed frame: a stored neighbour, not yet visited, strength
/// within the parent's and above the floor, one hop deeper.
pub proof fn lemma_expand_props(
    g: HyperGraph,
    cur: u128,
    s: u64,
    depth: usize,
    nbs: Seq<u128>,
    visited: Set<u128>,
    rate: u64,
)
    requires
        g.wf(),
        s <= MAX_LEVEL,
        rate <= ONE,
        depth < usize::MAX,
    ensures
        ({
            let out = expand_frames(g, cur, s, depth, nbs, visited, rate);
            &&& forall|i: int|
                0 <= i < out.len() ==> nbs.contains((#[trigger] out[i]).id) && !visited.contains(
                    out[i].id,
                ) && out[i].strength <= s && out[i].depth == depth + 1
        }),
    decreases nbs.len(),
{
    if nbs.len() > 0 {
        let nb = nbs[0];
        lemma_expand_props(g, cur, s, depth, nbs.drop_first(), visited, rate);
        let gain_val = propagated_strength(g, cur, nb, s, rate);
        lemma_max_cond_bound(g, g.incident_edges(cur), nb);
        lemma_fx_mul_le(s as int, max_conductance(g, cur, nb) as int);
        lemma_fx_mul_le(fx_mul(s as int, max_conductance(g, cur, nb) as int), rate as int);
        assert(0 <= gain_val <= s);
        let out = expand_frames(g, cur, s, depth, nbs, visited, rate);
        let rest = expand_frames(g, cur, s, depth, nbs.drop_first(), visited, rate);
        assert forall|i: int|
            0 <= i < out.len() implies nbs.contains((#[trigger] out[i]).id) && !visited.contains(
            out[i].id) && out[i].strength <= s && out[i].depth == depth + 1 by {
            let head_len = out.len() - rest.len();
            if i < head_len {
                assert(out[i].id == nb);
                assert(nbs[0] == nb);
                assert(out[i].strength == gain_val as u64);
                assert(out[i].depth == (depth + 1) as usize);
            } else {
                assert(out[i] == rest[i - head_len]);
                assert(nbs.drop_first().contains(rest[i - head_len].id));
                let w = choose|w: int|
                    0 <= w < nbs.drop_first().len() && nbs.drop_first()[w] == rest[i
                        - head_len].id;
                assert(nbs[w + 1] == rest[i - head_len].id);
            }
        }
    }
}

/// The frames the traversal emits, in visit order: pop the top frame;
/// drop it when too deep or already visited; otherwise emit it, mark
/// it visited, and push a frame per reachable unvisited neighbour.
pub open spec fn traverse_rec(
    g: HyperGraph,
    rate: u64,
    max_depth: usize,
    stack: Seq<Frame>,
    visited: Set<u128>,
) -> Seq<Frame>
    decreases unvisited_count(g.nodes@, visited), stack.len(),
{
    if stack.len() == 0 {
        Seq::empty()
    } else {
        let fr = stack.last();
        let rest = stack.drop_last();
        if fr.depth >= max_depth || visited.contains(fr.id) {
            traverse_rec(g, rate, max_depth, rest, visited)
        } else {
            let visited2 = visited.insert(fr.id);
            let pushes = expand_frames(
                g,
                fr.id,
                fr.strength,
                fr.depth,
                g.neighbors_of(fr.id),
                visited2,
                rate,
            );
            proof {
                lemma_traverse_decreases(g, fr.id, visited);
            }
            seq![fr] + traverse_rec(g, rate, max_depth, rest + pushes, visited2)
        }
    }
}

/// Marking a frame visited shrinks the measure: a stored node shrinks
/// the unvisited count, and an unknown id pushes nothing.
pub proof fn lemma_traverse_decreases(g: HyperGraph, id: u128, visited: Set<u128>)
    requires
        !visited.contains(id),
    ensures
        g.has_node(id) ==> unvisited_count(g.nodes@, visited.insert(id)) < unvisited_count(
            g.nodes@,
            visited,
        ),
        !g.has_node(id) ==> unvisited_count(g.nodes@, visited.insert(id)) == unvisited_count(
            g.nodes@,
            visited,
        ),
        !g.has_node(id) ==> g.neighbors_of(id) =~= Seq::<u128>::empty(),
        !g.has_node(id) ==> forall|s: u64, depth: usize, v2: Set<u128>, rate: u64|
            expand_frames(g, id, s, depth, g.neighbors_of(id), v2, rate) =~= Seq::<Frame>::empty(),
{
    if g.has_node(id) {
        lemma_unvisited_insert(g.nodes@, visited, id);
    } else {
        lemma_unvisited_insert_absent(g.nodes@, visited, id);
        assert(g.incident_edges(id) =~= Seq::<u128>::empty());
        assert(g.candidate_seq(Seq::empty()) =~= Seq::<u128>::empty());
        assert(g.neighbors_of(id) == crate::hypergraph::neighbor_fold(
            id,
            Seq::empty(),
            Seq::empty(),
        ));
        assert(g.neighbors_of(id) =~= Seq::<u128>::empty());
        assert forall|s: u64, depth: usize, v2: Set<u128>, rate: u64|
            expand_frames(g, id, s, depth, g.neighbors_of(id), v2, rate)
            =~= Seq::<Frame>::empty() by {
            assert(g.neighbors_of(id).len() == 0);
        }
    }
}

/// What a whole traversal emits: each node at most once, never one
/// already visited, never deeper than `max_depth - 1`, strengths
/// bounded by the frontier's, and only ids that stood on the frontier
/// or in the store.
pub proof fn lemma_traverse_props(
    g: HyperGraph,
    rate: u64,
    max_depth: usize,
    stack: Seq<Frame>,
    visited: Set<u128>,
)
    requires
        g.wf(),
        rate <= ONE,
        forall|i: int| 0 <= i < stack.len() ==> (#[trigger] stack[i]).strength <= MAX_LEVEL,
    ensures
        ({
            let out = traverse_rec(g, rate, max_depth, stack, visited);
            &&& forall|i: int| 0 <= i < out.len() ==> !visited.contains((#[trigger] out[i]).id)
            &&& forall|i: int, j: int|
                0 <= i < j < out.len() ==> (#[trigger] out[i]).id != (#[trigger] out[j]).id
            &&& forall|i: int| 0 <= i < out.len() ==> (#[trigger] out[i]).depth < max_depth
            &&& forall|i: int| 0 <= i < out.len() ==> (#[trigger] out[i]).strength <= MAX_LEVEL
            &&& forall|i: int|
                0 <= i < out.len() ==> g.has_node((#[trigger] out[i]).id) || exists|k: int|
                    0 <= k < stack.len() && (#[trigger] stack[k]).id == out[i].id
        }),
    decreases unvisited_count(g.nodes@, visited), stack.len(),
{
    if stack.len() > 0 {
        let fr = stack.last();
        let rest = stack.drop_last();
        assert(forall|i: int|
            0 <= i < rest.len() ==> (#[trigger] rest[i]).strength <= MAX_LEVEL);
        if fr.depth >= max_depth || visited.contains(fr.id) {
            lemma_traverse_props(g, rate, max_depth, rest, visited);
            let sub = traverse_rec(g, rate, max_depth, rest, visited);
            let out = traverse_rec(g, rate, max_depth, stack, visited);
            assert(out == sub);
            assert forall|i: int|
                0 <= i < out.len() implies g.has_node((#[trigger] out[i]).id) || exists|k: int|
                0 <= k < stack.len() && (#[trigger] stack[k]).id == out[i].id by {
                if !g.has_node(out[i].id) {
                    assert(g.has_node(sub[i].id) || exists|k: int|
                        0 <= k < rest.len() && (#[trigger] rest[k]).id == sub[i].id);
                    let k = choose|k: int|
                        0 <= k < rest.len() && (#[trigger] rest[k]).id == sub[i].id;
                    assert(stack[k].id == out[i].id);
                }
            }
        } else {
            let visited2 = visited.insert(fr.id);
            let nbs = g.neighbors_of(fr.id);
            let pushes = expand_frames(g, fr.id, fr.strength, fr.depth, nbs, visited2, rate);
            lemma_traverse_decreases(g, fr.id, visited);
            assert(fr.depth < usize::MAX);
            lemma_expand_props(g, fr.id, fr.strength, fr.depth, nbs, visited2, rate);
            g.lemma_neighbors_of(fr.id);
            assert forall|i: int|
                0 <= i < (rest + pushes).len() implies (#[trigger] (rest + pushes)[i]).strength
                <= MAX_LEVEL by {
                if i < rest.len() {
                    assert((rest + pushes)[i] == rest[i]);
                } else {
                    assert((rest + pushes)[i] == pushes[i - rest.len()]);
                }
            }
            lemma_unvisited_monotone(g.nodes@, visited, visited2);
            lemma_traverse_props(g, rate, max_depth, rest + pushes, visited2);
            let sub = traverse_rec(g, rate, max_depth, rest + pushes, visited2);
            let out = traverse_rec(g, rate, max_depth, stack, visited);
            assert(out == seq![fr] + sub);
            assert(out[0] == fr);
            assert(forall|i: int| 1 <= i < out.len() ==> out[i] == sub[i - 1]);
            assert forall|i: int|
                0 <= i < out.len() implies !visited.contains((#[trigger] out[i]).id) by {
                if i >= 1 {
                    assert(!visited2.contains(sub[i - 1].id));
                }
            }
            assert forall|i: int, j: int|
                0 <= i < j < out.len() implies (#[trigger] out[i]).id != (
            #[trigger] out[j]).id by {
                if i == 0 {
                    assert(!visited2.contains(sub[j - 1].id));
                    assert(visited2.contains(fr.id));
                }
            }
            assert forall|i: int|
                0 <= i < out.len() implies (#[trigger] out[i]).depth < max_depth by {
                if i == 0 {
                    assert(fr.depth < max_depth);
                }
            }
            assert forall|i: int|
                0 <= i < out.len() implies g.has_node((#[trigger] out[i]).id) || exists|k: int|
                0 <= k < stack.len() && (#[trigger] stack[k]).id == out[i].id by {
                if i == 0 {
                    assert(stack[stack.len() - 1].id == out[0].id);
                } else if !g.has_node(out[i].id) {
                    let k = choose|k: int|
                        0 <= k < (rest + pushes).len() && (#[trigger] (rest + pushes)[k]).id
                            == out[i].id;
                    if k < rest.len() {
                        assert(stack[k].id == out[i].id);
                    } else {
                        assert(pushes[k - rest.len()].id == out[i].id);
                        assert(nbs.contains(out[i].id));
                        assert(g.has_node(out[i].id)) by {
                            let j = choose|j: int|
                                0 <= j < g.edges@.len() && (
                                #[trigger] g.edges@[j]).node_ids@.contains(fr.id)
                                    && g.edges@[j].node_ids@.contains(out[i].id);
                            let m = choose|m: int|
                                0 <= m < g.edges@[j].node_ids@.len()
                                    && g.edges@[j].node_ids@[m] == out[i].id;
                            assert(g.has_node(g.edges@[j].node_ids@[m]));
                        }
                        assert(false);
                    }
                }
            }
        }
    }
}

/// The visible effect of a traversal: each emitted frame as a
/// `(node, strength)` pair, the source itself left out.
pub open spec fn effects_of(frames: Seq<Frame>, source: u128) -> Seq<(u128, u64)> {
    frames.filter(|f: Frame| f.id != source).map_values(|f: Frame| (f.id, f.strength))
}

/// Effects inherit distinctness from the frames, never name the
/// source, and each one comes from some frame.
pub proof fn lemma_effects_props(frames: Seq<Frame>, source: u128)
    requires
        forall|i: int, j: int|
            0 <= i < j < frames.len() ==> (#[trigger] frames[i]).id != (#[trigger] frames[j]).id,
    ensures
        ({
            let out = effects_of(frames, source);
            &&& forall|i: int| 0 <= i < out.len() ==> (#[trigger] out[i]).0 != source
            &&& forall|i: int, j: int|
                0 <= i < j < out.len() ==> (#[trigger] out[i]).0 != (#[trigger] out[j]).0
            &&& forall|i: int|
                0 <= i < out.len() ==> exists|k: int|
                    0 <= k < frames.len() && (#[trigger] frames[k]).id == (#[trigger] out[i]).0
                        && frames[k].strength == out[i].1
        }),
    decreases frames.len(),
{
    reveal(Seq::filter);
    if frames.len() > 0 {
        let prefix = frames.drop_last();
        let f = frames.last();
        lemma_effects_props(prefix, source);
        let sub = effects_of(prefix, source);
        let out = effects_of(frames, source);
        if f.id != source {
            assert(frames.filter(|fr: Frame| fr.id != source) == prefix.filter(
                |fr: Frame| fr.id != source,
            ).push(f));
            assert(out =~= sub.push((f.id, f.strength)));
        } else {
            assert(frames.filter(|fr: Frame| fr.id != source) == prefix.filter(
                |fr: Frame| fr.id != source,
            ));
            assert(out =~= sub);
        }
        assert forall|i: int|
            0 <= i < out.len() implies exists|k: int|
            0 <= k < frames.len() && (#[trigger] frames[k]).id == (#[trigger] out[i]).0
                && frames[k].strength == out[i].1 by {
            if i < sub.len() {
                assert(out[i] == sub[i]);
                let k = choose|k: int|
                    0 <= k < prefix.len() && (#[trigger] prefix[k]).id == sub[i].0
                        && prefix[k].strength == sub[i].1;
                assert(frames[k].id == out[i].0 && frames[k].strength == out[i].1);
            } else {
                assert(frames[frames.len() - 1].id == out[i].0);
            }
        }
        assert forall|i: int, j: int|
            0 <= i < j < out.len() implies (#[trigger] out[i]).0 != (#[trigger] out[j]).0 by {
            if j == out.len() - 1 && out.len() > sub.len() {
                let k = choose|k: int|
                    0 <= k < prefix.len() && (#[trigger] prefix[k]).id == sub[i].0
                        && prefix[k].strength == sub[i].1;
                assert(frames[k].id == out[i].0);
                assert(frames[frames.len() - 1].id == out[j].0);
            }
        }
    }
}

/// Builds the effect pairs of a frame list.
pub fn collect_effects(frames: &Vec<Frame>, source: u128) -> (r: Vec<(u128, u64)>)
    ensures
        r@ == effects_of(frames@, source),
{
    let ghost pred = |f: Frame| f.id != source;
    let ghost to_pair = |f: Frame| (f.id, f.strength);
    let mut r: Vec<(u128, u64)> = Vec::new();
    let mut i: usize = 0;
    while i < frames.len()
        invariant
            i <= frames@.len(),
            pred == (|f: Frame| f.id != source),
            to_pair == (|f: Frame| (f.id, f.strength)),
            r@ == frames@.take(i as int).filter(pred).map_values(to_pair),
        decreases frames@.len() - i,
    {
        let ghost prefix = frames@.take(i as int);
        proof {
            assert(frames@.take(i + 1).drop_last() =~= prefix);
            assert(frames@.take(i + 1).last() == frames@[i as int]);
            reveal(Seq::filter);
        }
        let f = frames[i];
        if f.id != source {
            r.push((f.id, f.strength));
            proof {
                assert(frames@.take(i + 1).filter(pred) == prefix.filter(pred).push(
                    frames@[i as int],
                ));
                assert(prefix.filter(pred).push(frames@[i as int]).map_values(to_pair)
                    =~= prefix.filter(pred).map_values(to_pair).push(
                    (frames@[i as int].id, frames@[i as int].strength),
                ));
            }
        } else {
            proof {
                assert(frames@.take(i + 1).filter(pred) == prefix.filter(pred));
            }
        }
        i += 1;
    }
    proof {
        assert(frames@.take(frames@.len() as int) =~= frames@);
    }
    r
}

/// The frames a cascade from `source` emits: the traversal started
/// with one full-strength frame and nothing visited.
pub open spec fn cascade_frames(
    g: HyperGraph,
    rate: u64,
    max_depth: usize,
    source: u128,
    strength: u64,
) -> Seq<Frame> {
    traverse_rec(
        g,
        rate,
        max_depth,
        seq![Frame { id: source, strength, depth: 0 }],
        Set::empty(),
    )
}

/// Runs the bounded depth-first traversal and returns every emitted
/// frame in visit order.
pub fn run_traversal(
    graph: &HyperGraph,
    source: u128,
    strength: u64,
    rate: u64,
    max_depth: usize,
) -> (r: Vec<Frame>)
    requires
        graph.wf(),
        strength <= MAX_LEVEL,
        rate <= ONE,
    ensures
        r@ == cascade_frames(*graph, rate, max_depth, source, strength),
{
    let mut emitted: Vec<Frame> = Vec::new();
    let mut visited: Vec<u128> = Vec::new();
    let mut stack: Vec<Frame> = Vec::new();
    stack.push(Frame { id: source, strength, depth: 0 });
    let ghost total = cascade_frames(*graph, rate, max_depth, source, strength);
    proof {
        assert(stack@ =~= seq![Frame { id: source, strength, depth: 0 }]);
        assert(visited@.to_set() =~= Set::<u128>::empty());
        assert(emitted@ + traverse_rec(*graph, rate, max_depth, stack@, visited@.to_set())
            =~= total);
    }
    while stack.len() > 0
        invariant
            graph.wf(),
            rate <= ONE,
            forall|i: int| 0 <= i < stack@.len() ==> (#[trigger] stack@[i]).strength <= MAX_LEVEL,
            emitted@ + traverse_rec(*graph, rate, max_depth, stack@, visited@.to_set()) == total,
            total == cascade_frames(*graph, rate, max_depth, source, strength),
        decreases unvisited_count(graph.nodes@, visited@.to_set()), stack@.len(),
    {
        let ghost head_stack = stack@;
        let ghost vset = visited@.to_set();
        let fr = match stack.pop() {
            Some(fr) => fr,
            None => {
                proof {
                    assert(false);
                }
                Frame { id: source, strength: 0, depth: 0 }
            },
        };
        proof {
            assert(head_stack.last() == fr);
            assert(head_stack.drop_last() == stack@);
        }
        let seen = ids_contain(&visited, fr.id);
        proof {
            assert(vset.contains(fr.id) == visited@.contains(fr.id));
        }
        if fr.depth >= max_depth || seen {
            proof {
                assert(traverse_rec(*graph, rate, max_depth, head_stack, vset) == traverse_rec(
                    *graph,
                    rate,
                    max_depth,
                    stack@,
                    vset,
                ));
            }
        } else {
            let ghost visited_before = visited@;
            visited.push(fr.id);
            emitted.push(fr);
            let ghost vset2 = visited@.to_set();
            let ghost rest = stack@;
            let ghost emitted_before = emitted@.drop_last();
            proof {
                assert forall|a: u128| #[trigger] vset2.contains(a) implies vset.insert(
                    fr.id,
                ).contains(a) by {
                    assert(visited@.contains(a));
                    let i = choose|i: int| 0 <= i < visited@.len() && visited@[i] == a;
                    if i < visited_before.len() {
                        assert(visited_before[i] == a);
                        assert(visited_before.contains(a));
                    } else {
                        assert(a == fr.id);
                    }
                }
                assert forall|a: u128| #[trigger] vset.insert(fr.id).contains(a) implies vset2.contains(
                    a,
                ) by {
                    if a == fr.id {
                        assert(visited@[visited@.len() - 1] == a);
                        assert(visited@.contains(a));
                    } else {
                        assert(visited_before.contains(a));
                        let i = choose|i: int|
                            0 <= i < visited_before.len() && visited_before[i] == a;
                        assert(visited@[i] == a);
                        assert(visited@.contains(a));
                    }
                }
                assert(vset2 =~= vset.insert(fr.id));
                lemma_traverse_decreases(*graph, fr.id, vset);
            }
            let neighbors = graph.get_neighbors(fr.id);
            let edge_ids = graph.get_node_edges(fr.id);
            proof {
                assert(neighbors@.take(0) =~= Seq::<u128>::empty());
                assert(stack@ =~= rest + expand_frames(
                    *graph,
                    fr.id,
                    fr.strength,
                    fr.depth,
                    neighbors@.take(0),
                    vset2,
                    rate,
                ));
            }
            let mut m: usize = 0;
            while m < neighbors.len()
                invariant
                    graph.wf(),
                    rate <= ONE,
                    m <= neighbors@.len(),
                    fr.strength <= MAX_LEVEL,
                    fr.depth < max_depth,
                    neighbors@ == graph.neighbors_of(fr.id),
                    edge_ids@ == graph.incident_edges(fr.id),
                    vset2 == visited@.to_set(),
                    stack@ == rest + expand_frames(
                        *graph,
                        fr.id,
                        fr.strength,
                        fr.depth,
                        neighbors@.take(m as int),
                        vset2,
                        rate,
                    ),
                    forall|i: int|
                        0 <= i < stack@.len() ==> (#[trigger] stack@[i]).strength <= MAX_LEVEL,
                decreases neighbors@.len() - m,
            {
                let nb = neighbors[m];
                let ghost stack_mid = stack@;
                let in_visited = ids_contain(&visited, nb);
                proof {
                    assert(vset2.contains(nb) == visited@.contains(nb));
                }
                if !in_visited {
                    let mut maxc: u64 = 0;
                    proof {
                        assert(edge_ids@.take(0) =~= Seq::<u128>::empty());
                    }
                    let mut k: usize = 0;
                    while k < edge_ids.len()
                        invariant
                            graph.wf(),
                            k <= edge_ids@.len(),
                            maxc == max_cond_prefix(*graph, edge_ids@.take(k as int), nb),
                            maxc <= ONE,
                        decreases edge_ids@.len() - k,
                    {
                        let eid = edge_ids[k];
                        let ghost prefix = edge_ids@.take(k as int);
                        match graph.get_edge(eid) {
                            Some(e) => {
                                proof {
                                    graph.lemma_edge_index(eid);
                                }
                                if ids_contain(&e.node_ids, nb) {
                                    if e.conductance > maxc {
                                        maxc = e.conductance;
                                    }
                                    proof {
                                        assert(edge_gain(*graph, eid, nb) == e.conductance);
                                    }
                                } else {
                                    proof {
                                        assert(edge_gain(*graph, eid, nb) == 0);
                                    }
                                }
                            },
                            None => {
                                proof {
                                    assert(edge_gain(*graph, eid, nb) == 0);
                                }
                            },
                        }
                        proof {
                            assert(edge_ids@.take(k + 1).drop_last() =~= prefix);
                            assert(edge_ids@.take(k + 1).last() == eid);
                        }
                        k += 1;
                    }
                    proof {
                        assert(edge_ids@.take(edge_ids@.len() as int) =~= edge_ids@);
                        assert(maxc == max_conductance(*graph, fr.id, nb));
                    }
                    let p1 = mul_rate(fr.strength, maxc);
                    let p = mul_rate(p1, rate);
                    proof {
                        assert(p as int == propagated_strength(*graph, fr.id, nb, fr.strength, rate));
                    }
                    if p > CASCADE_FLOOR {
                        stack.push(Frame { id: nb, strength: p, depth: fr.depth + 1 });
                    }
                }
                proof {
                    lemma_expand_snoc(
                        *graph,
                        fr.id,
                        fr.strength,
                        fr.depth,
                        neighbors@.take(m as int),
                        nb,
                        vset2,
                        rate,
                    );
                    assert(neighbors@.take(m + 1) =~= neighbors@.take(m as int).push(nb));
                    if !vset2.contains(nb) && propagated_strength(*graph, fr.id, nb, fr.strength, rate)
                        > CASCADE_FLOOR as int {
                        assert(stack@ =~= stack_mid + seq![
                            Frame {
                                id: nb,
                                strength: propagated_strength(
                                    *graph,
                                    fr.id,
                                    nb,
                                    fr.strength,
                                    rate,
                                ) as u64,
                                depth: (fr.depth + 1) as usize,
                            },
                        ]);
                        assert((rest + expand_frames(
                            *graph,
                            fr.id,
                            fr.strength,
                            fr.depth,
                            neighbors@.take(m as int),
                            vset2,
                            rate,
                        )) + seq![
                            Frame {
                                id: nb,
                                strength: propagated_strength(
                                    *graph,
                                    fr.id,
                                    nb,
                                    fr.strength,
                                    rate,
                                ) as u64,
                                depth: (fr.depth + 1) as usize,
                            },
                        ] =~= rest + expand_frames(
                            *graph,
                            fr.id,
                            fr.strength,
                            fr.depth,
                            neighbors@.take(m + 1),
                            vset2,
                            rate,
                        ));
                    } else {
                        assert(stack@ == stack_mid);
                        assert(rest + expand_frames(
                            *graph,
                            fr.id,
                            fr.strength,
                            fr.depth,
                            neighbors@.take(m as int),
                            vset2,
                            rate,
                        ) =~= rest + expand_frames(
                            *graph,
                            fr.id,
                            fr.strength,
                            fr.depth,
                            neighbors@.take(m + 1),
                            vset2,
                            rate,
                        ));
                    }
                }
                m += 1;
            }
            proof {
                assert(neighbors@.take(neighbors@.len() as int) =~= neighbors@);
                let pushes = expand_frames(
                    *graph,
                    fr.id,
                    fr.strength,
                    fr.depth,
                    graph.neighbors_of(fr.id),
                    vset2,
                    rate,
                );
                assert(stack@ == rest + pushes);
                assert(traverse_rec(*graph, rate, max_depth, head_stack, vset) == seq![fr]
                    + traverse_rec(*graph, rate, max_depth, rest + pushes, vset2));
                assert(emitted@ =~= emitted_before.push(fr));
                assert(emitted_before.push(fr) + traverse_rec(
                    *graph,
                    rate,
                    max_depth,
                    stack@,
                    vset2,
                ) =~= emitted_before + (seq![fr] + traverse_rec(
                    *graph,
                    rate,
                    max_depth,
                    stack@,
                    vset2,
                )));
                lemma_unvisited_monotone(graph.nodes@, vset, vset2);
            }
        }
    }
    proof {
        assert(emitted@ + traverse_rec(
            *graph,
            rate,
            max_depth,
            Seq::empty(),
            visited@.to_set(),
        ) =~= emitted@);
        assert(stack@ =~= Seq::<Frame>::empty());
    }
    emitted
}

/// What a whole cascade emits: each node at most once, depths below
/// the bound, strengths within the start strength's ceiling, every id
/// the source or a stored node, and no more frames than nodes plus
/// one.
pub proof fn lemma_cascade_props(
    g: HyperGraph,
    rate: u64,
    max_depth: usize,
    source: u128,
    strength: u64,
)
    requires
        g.wf(),
        rate <= ONE,
        strength <= MAX_LEVEL,
    ensures
        ({
            let fs = cascade_frames(g, rate, max_depth, source, strength);
            &&& forall|i: int, j: int|
                0 <= i < j < fs.len() ==> (#[trigger] fs[i]).id != (#[trigger] fs[j]).id
            &&& forall|i: int| 0 <= i < fs.len() ==> (#[trigger] fs[i]).depth < max_depth
            &&& forall|i: int| 0 <= i < fs.len() ==> (#[trigger] fs[i]).strength <= MAX_LEVEL
            &&& forall|i: int|
                0 <= i < fs.len() ==> (#[trigger] fs[i]).id == source || g.has_node(fs[i].id)
            &&& fs.len() <= g.nodes@.len() + 1
        }),
{
    let start = seq![Frame { id: source, strength, depth: 0 }];
    lemma_traverse_props(g, rate, max_depth, start, Set::empty());
    let fs = cascade_frames(g, rate, max_depth, source, strength);
    assert forall|i: int|
        0 <= i < fs.len() implies (#[trigger] fs[i]).id == source || g.has_node(fs[i].id) by {
        if !g.has_node(fs[i].id) {
            let k = choose|k: int| 0 <= k < start.len() && (#[trigger] start[k]).id == fs[i].id;
            assert(start[0].id == source);
        }
    }
    // Count: the emitted ids are distinct and drawn from the stored
    // ids plus the source.
    let ids = fs.map_values(|f: Frame| f.id);
    assert(ids.no_duplicates()) by {
        assert forall|i: int, j: int|
            0 <= i < ids.len() && 0 <= j < ids.len() && i != j implies ids[i] != ids[j] by {
            if i < j {
                assert(fs[i].id != fs[j].id);
            } else {
                assert(fs[j].id != fs[i].id);
            }
        }
    }
    let node_ids = g.nodes@.map_values(|n: HyperNode| n.id);
    let bound = node_ids.to_set().insert(source);
    assert(ids.to_set().subset_of(bound)) by {
        assert forall|x: u128| ids.to_set().contains(x) implies bound.contains(x) by {
            assert(ids.contains(x));
            let i = choose|i: int| 0 <= i < ids.len() && ids[i] == x;
            assert(fs[i].id == x);
            if g.has_node(x) {
                let k = choose|k: int|
                    0 <= k < g.nodes@.len() && (#[trigger] g.nodes@[k]).id == x;
                assert(node_ids[k] == x);
                assert(node_ids.contains(x));
                assert(node_ids.to_set().contains(x));
            }
        }
    }
    ids.unique_seq_to_set();
    node_ids.lemma_cardinality_of_set();
    assert(bound.finite() && bound.len() <= node_ids.to_set().len() + 1) by {
        node_ids.lemma_cardinality_of_set();
    }
    vstd::set_lib::lemma_len_subset(ids.to_set(), bound);
    assert(fs.len() == ids.len());
}

} // verus!
