//! The spiking engine: per-node activations, spike history, refractory
//! periods and Hebbian synaptic weights.
//!
//! Activations and refractory deadlines are keyed sequences with
//! distinct keys; a node without an entry has activation zero.  All
//! operations are specified as folds or pointwise maps over these
//! sequences.

use vstd::prelude::*;

use crate::coordinator::DatabaseConfig;
use crate::errors::GraphError;
use crate::fixed::{ONE, MAX_LEVEL, sat_add, sat_add64, sat_sub, sat_sub64, fx_mul, mul_rate};
use crate::hypergraph::{HyperGraph, HyperNode, ids_contain};
use vstd::multiset::Multiset;

verus! {

/// Activations above this fixed-point level count as active (0.01).
pub const ACTIVE_LEVEL: u64 = 10_000;

/// Fixed-point learning rate divisor: a correlation contributes one
/// hundredth of itself (0.01).
pub const LEARNING_DIVISOR: u64 = 100;

/// How far back spike history is kept, in milliseconds (one hour).
pub const HISTORY_WINDOW_MS: u64 = 3_600_000;

/// One recorded spike.
#[derive(Debug, Clone, Copy)]
pub struct SpikeEvent {
    pub node_id: u128,
    pub timestamp: u64,
    pub intensity: u64,
    pub propagation_depth: usize,
}

/// One learned weight for an unordered node pair, canonically
/// `a <= b`.
#[derive(Debug, Clone, Copy)]
pub struct SynapticWeight {
    pub a: u128,
    pub b: u128,
    pub weight: i64,
}

/// The engine's mutable state.
#[derive(Debug, Clone)]
pub struct NeuralState {
    pub activations: Vec<(u128, u64)>,
    pub spike_history: Vec<SpikeEvent>,
    pub refractory_until: Vec<(u128, u64)>,
    pub synaptic_weights: Vec<SynapticWeight>,
    pub total_spikes: u64,
    pub processing_cycles: u64,
    pub last_update: u64,
}

/// A point-in-time summary of the engine.
#[derive(Debug, Clone, Copy)]
pub struct NeuralStats {
    pub total_spikes: u64,
    pub active_neurons: usize,
    pub average_activation: u64,
    pub processing_cycles: u64,
}

/// True when no key occurs twice.
pub open spec fn keys_distinct(s: Seq<(u128, u64)>) -> bool {
    forall|i: int, j: int| 0 <= i < j < s.len() ==> (#[trigger] s[i]).0 != (#[trigger] s[j]).0
}

/// True when the sequence holds an entry for `k`.
pub open spec fn has_key(s: Seq<(u128, u64)>, k: u128) -> bool {
    exists|i: int| 0 <= i < s.len() && (#[trigger] s[i]).0 == k
}

/// The position of the entry for `k`.
pub open spec fn key_index(s: Seq<(u128, u64)>, k: u128) -> int {
    choose|i: int| 0 <= i < s.len() && (#[trigger] s[i]).0 == k
}

/// The value stored under `k`; meaningful only when the key is there.
pub open spec fn stored(s: Seq<(u128, u64)>, k: u128) -> u64 {
    s[key_index(s, k)].1
}

/// The value stored under `k`, taking a missing entry as zero.
pub open spec fn level_of(s: Seq<(u128, u64)>, k: u128) -> u64 {
    if has_key(s, k) {
        stored(s, k)
    } else {
        0
    }
}

/// The sequence with `k` bound to `v`: updated in place when present,
/// appended otherwise.
pub open spec fn set_key(s: Seq<(u128, u64)>, k: u128, v: u64) -> Seq<(u128, u64)> {
    if has_key(s, k) {
        s.update(key_index(s, k), (k, v))
    } else {
        s.push((k, v))
    }
}

/// With distinct keys the chosen index is the one occurrence.
pub proof fn lemma_key_index(s: Seq<(u128, u64)>, k: u128)
    requires
        keys_distinct(s),
        has_key(s, k),
    ensures
        0 <= key_index(s, k) < s.len(),
        s[key_index(s, k)].0 == k,
        forall|i: int| 0 <= i < s.len() && (#[trigger] s[i]).0 == k ==> i == key_index(s, k),
{
    let w = key_index(s, k);
    assert(0 <= w < s.len() && s[w].0 == k);
    assert forall|i: int| 0 <= i < s.len() && (#[trigger] s[i]).0 == k implies i == w by {
        if i < w {
            assert(s[i].0 != s[w].0);
        } else if w < i {
            assert(s[w].0 != s[i].0);
        }
    }
}

/// What binding one key does to every lookup.
pub proof fn lemma_set_key(s: Seq<(u128, u64)>, k: u128, v: u64)
    requires
        keys_distinct(s),
    ensures
        keys_distinct(set_key(s, k, v)),
        has_key(set_key(s, k, v), k),
        stored(set_key(s, k, v), k) == v,
        level_of(set_key(s, k, v), k) == v,
        forall|x: u128| #[trigger] has_key(set_key(s, k, v), x) <==> (has_key(s, x) || x == k),
        forall|x: u128| x != k ==> #[trigger] level_of(set_key(s, k, v), x) == level_of(s, x),
        forall|x: u128|
            x != k && has_key(s, x) ==> has_key(set_key(s, k, v), x) && #[trigger] stored(
                set_key(s, k, v),
                x,
            ) == stored(s, x),
        forall|i: int|
            0 <= i < set_key(s, k, v).len() ==> ((#[trigger] set_key(s, k, v)[i]).1 == v || (
            exists|j: int| 0 <= j < s.len() && set_key(s, k, v)[i] == #[trigger] s[j])),
{
    let out = set_key(s, k, v);
    if has_key(s, k) {
        lemma_key_index(s, k);
        let w = key_index(s, k);
        assert(out == s.update(w, (k, v)));
        assert forall|i: int, j: int|
            0 <= i < j < out.len() implies (#[trigger] out[i]).0 != (#[trigger] out[j]).0 by {
            assert(out[i].0 == s[i].0);
            assert(out[j].0 == s[j].0);
        }
        assert(out[w].0 == k && out[w].1 == v);
        assert(has_key(out, k));
        lemma_key_index(out, k);
        assert forall|x: u128| #[trigger] has_key(out, x) implies (has_key(s, x) || x == k) by {
            let i = choose|i: int| 0 <= i < out.len() && (#[trigger] out[i]).0 == x;
            if i != w {
                assert(s[i].0 == x);
            }
        }
        assert forall|x: u128| has_key(s, x) implies has_key(out, x) by {
            let i = choose|i: int| 0 <= i < s.len() && (#[trigger] s[i]).0 == x;
            assert(out[i].0 == x);
        }
        assert forall|x: u128|
            x != k && has_key(s, x) implies has_key(out, x) && #[trigger] stored(out, x)
            == stored(s, x) by {
            lemma_key_index(s, x);
            lemma_key_index(out, x);
            let i = key_index(s, x);
            assert(out[i].0 == x);
            assert(key_index(out, x) == i);
        }
        assert forall|i: int|
            0 <= i < out.len() implies ((#[trigger] out[i]).1 == v || (exists|j: int|
            0 <= j < s.len() && out[i] == #[trigger] s[j])) by {
            if i != w {
                assert(out[i] == s[i]);
            }
        }
    } else {
        assert(out == s.push((k, v)));
        assert(out[s.len() as int] == (k, v));
        assert forall|i: int, j: int|
            0 <= i < j < out.len() implies (#[trigger] out[i]).0 != (#[trigger] out[j]).0 by {
            if j < s.len() {
                assert(out[i] == s[i] && out[j] == s[j]);
            } else {
                assert(out[j].0 == k);
                assert(out[i] == s[i]);
                if s[i].0 == k {
                    assert(has_key(s, k));
                }
            }
        }
        assert(has_key(out, k));
        lemma_key_index(out, k);
        assert forall|x: u128| #[trigger] has_key(out, x) implies (has_key(s, x) || x == k) by {
            let i = choose|i: int| 0 <= i < out.len() && (#[trigger] out[i]).0 == x;
            if i < s.len() {
                assert(s[i].0 == x);
            }
        }
        assert forall|x: u128| has_key(s, x) implies has_key(out, x) by {
            let i = choose|i: int| 0 <= i < s.len() && (#[trigger] s[i]).0 == x;
            assert(out[i].0 == x);
        }
        assert forall|x: u128|
            x != k && has_key(s, x) implies has_key(out, x) && #[trigger] stored(out, x)
            == stored(s, x) by {
            lemma_key_index(s, x);
            lemma_key_index(out, x);
            let i = key_index(s, x);
            assert(out[i].0 == x);
            assert(key_index(out, x) == i);
        }
        assert forall|i: int|
            0 <= i < out.len() implies ((#[trigger] out[i]).1 == v || (exists|j: int|
            0 <= j < s.len() && out[i] == #[trigger] s[j])) by {
            if i < s.len() {
                assert(out[i] == s[i]);
            }
        }
    }
}

/// The position of the first entry for `k`, if any.
pub fn find_key(v: &Vec<(u128, u64)>, k: u128) -> (r: Option<usize>)
    ensures
        match r {
            Some(i) => i < v@.len() && v@[i as int].0 == k && forall|m: int|
                0 <= m < i ==> (#[trigger] v@[m]).0 != k,
            None => !has_key(v@, k),
        },
{
    let mut i: usize = 0;
    while i < v.len()
        invariant
            i <= v@.len(),
            forall|m: int| 0 <= m < i ==> (#[trigger] v@[m]).0 != k,
        decreases v@.len() - i,
    {
        if v[i].0 == k {
            return Some(i);
        }
        i += 1;
    }
    None
}

/// Binds `k` to `val`, updating in place or appending.
pub fn put_key(v: &mut Vec<(u128, u64)>, k: u128, val: u64)
    requires
        keys_distinct(old(v)@),
    ensures
        final(v)@ == set_key(old(v)@, k, val),
{
    match find_key(v, k) {
        Some(i) => {
            proof {
                lemma_key_index(v@, k);
            }
            let ghost before = v@;
            v.remove(i);
            v.insert(i, (k, val));
            proof {
                assert(v@ =~= before.update(i as int, (k, val)));
            }
        },
        None => {
            v.push((k, val));
        },
    }
}

impl NeuralState {
    /// The invariants of the engine state: distinct keys, bounded
    /// activations, and synaptic weights canonical and inside
    /// `[-ONE, ONE]`.
    pub open spec fn wf(self) -> bool {
        &&& keys_distinct(self.activations@)
        &&& forall|i: int|
            0 <= i < self.activations@.len() ==> (#[trigger] self.activations@[i]).1 <= MAX_LEVEL
        &&& keys_distinct(self.refractory_until@)
        &&& forall|i: int|
            0 <= i < self.synaptic_weights@.len() ==> (#[trigger] self.synaptic_weights@[i]).a
                <= self.synaptic_weights@[i].b
        &&& forall|i: int|
            0 <= i < self.synaptic_weights@.len() ==> -(ONE as int)
                <= (#[trigger] self.synaptic_weights@[i]).weight <= ONE as int
        &&& forall|i: int, j: int|
            0 <= i < j < self.synaptic_weights@.len() ==> !((#[trigger] self.synaptic_weights@[i]).a
                == (#[trigger] self.synaptic_weights@[j]).a && self.synaptic_weights@[i].b
                == self.synaptic_weights@[j].b)
    }

    /// An empty engine state.
    pub fn new(now_ms: u64) -> (s: NeuralState)
        ensures
            s.wf(),
            s.activations@.len() == 0,
            s.spike_history@.len() == 0,
            s.refractory_until@.len() == 0,
            s.synaptic_weights@.len() == 0,
            s.total_spikes == 0,
            s.processing_cycles == 0,
            s.last_update == now_ms,
    {
        NeuralState {
            activations: Vec::new(),
            spike_history: Vec::new(),
            refractory_until: Vec::new(),
            synaptic_weights: Vec::new(),
            total_spikes: 0,
            processing_cycles: 0,
            last_update: now_ms,
        }
    }
}

/// The engine state together with the parameters it runs under.
#[derive(Debug, Clone)]
pub struct SpikeProcessor {
    pub config: DatabaseConfig,
    pub neural_state: NeuralState,
}

/// One step of spike propagation: a source inside its refractory
/// window is skipped; any other source takes the spike.
pub open spec fn spike_step(
    m: (Seq<(u128, u64)>, Seq<(u128, u64)>, Seq<SpikeEvent>, int),
    id: u128,
    strength: u64,
    now_ms: u64,
    period: u64,
) -> (Seq<(u128, u64)>, Seq<(u128, u64)>, Seq<SpikeEvent>, int) {
    if has_key(m.1, id) && stored(m.1, id) > now_ms {
        m
    } else {
        (
            set_key(m.0, id, strength),
            set_key(m.1, id, sat_add(now_ms as int, period as int) as u64),
            m.2.push(
                SpikeEvent { node_id: id, timestamp: now_ms, intensity: strength, propagation_depth: 0 },
            ),
            sat_add(m.3, 1),
        )
    }
}

/// Spike propagation over a whole source list, in order.
pub open spec fn spike_fold(
    m: (Seq<(u128, u64)>, Seq<(u128, u64)>, Seq<SpikeEvent>, int),
    sources: Seq<u128>,
    strength: u64,
    now_ms: u64,
    period: u64,
) -> (Seq<(u128, u64)>, Seq<(u128, u64)>, Seq<SpikeEvent>, int)
    decreases sources.len(),
{
    if sources.len() == 0 {
        m
    } else {
        spike_fold(
            spike_step(m, sources[0], strength, now_ms, period),
            sources.drop_first(),
            strength,
            now_ms,
            period,
        )
    }
}

/// Propagation keeps keys distinct and activations bounded.
pub proof fn lemma_spike_fold_wf(
    m: (Seq<(u128, u64)>, Seq<(u128, u64)>, Seq<SpikeEvent>, int),
    sources: Seq<u128>,
    strength: u64,
    now_ms: u64,
    period: u64,
)
    requires
        keys_distinct(m.0),
        keys_distinct(m.1),
        strength <= MAX_LEVEL,
        forall|i: int| 0 <= i < m.0.len() ==> (#[trigger] m.0[i]).1 <= MAX_LEVEL,
        0 <= m.3 <= u64::MAX,
    ensures
        ({
            let out = spike_fold(m, sources, strength, now_ms, period);
            &&& keys_distinct(out.0)
            &&& keys_distinct(out.1)
            &&& forall|i: int| 0 <= i < out.0.len() ==> (#[trigger] out.0[i]).1 <= MAX_LEVEL
            &&& 0 <= out.3 <= u64::MAX
        }),
    decreases sources.len(),
{
    if sources.len() > 0 {
        let m2 = spike_step(m, sources[0], strength, now_ms, period);
        if !(has_key(m.1, sources[0]) && stored(m.1, sources[0]) > now_ms) {
            lemma_set_key(m.0, sources[0], strength);
            lemma_set_key(m.1, sources[0], sat_add(now_ms as int, period as int) as u64);
        }
        lemma_spike_fold_wf(m2, sources.drop_first(), strength, now_ms, period);
    }
}

/// A node whose refractory deadline lies in the future keeps both its
/// activation and its deadline through a whole propagation call.
pub proof fn lemma_spike_fold_refractory(
    m: (Seq<(u128, u64)>, Seq<(u128, u64)>, Seq<SpikeEvent>, int),
    sources: Seq<u128>,
    strength: u64,
    now_ms: u64,
    period: u64,
    id: u128,
)
    requires
        keys_distinct(m.0),
        keys_distinct(m.1),
        has_key(m.1, id),
        stored(m.1, id) > now_ms,
    ensures
        ({
            let out = spike_fold(m, sources, strength, now_ms, period);
            &&& level_of(out.0, id) == level_of(m.0, id)
            &&& has_key(out.1, id)
            &&& stored(out.1, id) == stored(m.1, id)
        }),
    decreases sources.len(),
{
    if sources.len() > 0 {
        let s0 = sources[0];
        let m2 = spike_step(m, s0, strength, now_ms, period);
        if has_key(m.1, s0) && stored(m.1, s0) > now_ms {
            lemma_spike_fold_refractory(m2, sources.drop_first(), strength, now_ms, period, id);
        } else {
            assert(s0 != id);
            lemma_set_key(m.0, s0, strength);
            lemma_set_key(m.1, s0, sat_add(now_ms as int, period as int) as u64);
            lemma_spike_fold_refractory(m2, sources.drop_first(), strength, now_ms, period, id);
        }
    }
}

/// The spike-history window similarity looks at, in milliseconds
/// (ten minutes).
pub const RECENT_WINDOW_MS: u64 = 600_000;

/// A quotient by ten, rounded toward zero.
pub open spec fn trunc_div10(n: int) -> int {
    if n >= 0 {
        n / 10
    } else {
        -((-n) / 10)
    }
}

/// Activation proximity: one minus the distance of the levels.
pub open spec fn activation_sim(a1: int, a2: int) -> int {
    ONE as int - crate::fixed::dist(a1, a2)
}

/// Shared-neighbourhood ratio, zero when both neighbourhoods are
/// empty.
pub open spec fn structural_sim(shared: int, maxn: int) -> int {
    if maxn > 0 {
        shared * (ONE as int) / maxn
    } else {
        0
    }
}

/// Spike-rate similarity: both silent scores one, one silent scores
/// zero, both active score the ratio of the smaller to the larger
/// count.
pub open spec fn temporal_sim(c1: int, c2: int) -> int {
    if c1 == 0 && c2 == 0 {
        ONE as int
    } else if c1 == 0 || c2 == 0 {
        0
    } else {
        crate::fixed::min_int(c1, c2) * (ONE as int) / crate::fixed::max_int(c1, c2)
    }
}

/// How many entries of `s1` also occur in `s2`.
pub open spec fn shared_neighbor_count(s1: Seq<u128>, s2: Seq<u128>) -> int {
    s1.filter(|x: u128| s2.contains(x)).len() as int
}

/// How many spikes of `id` the history holds after `cutoff`.
pub open spec fn recent_spike_count(hist: Seq<SpikeEvent>, id: u128, cutoff: int) -> int {
    hist.filter(|e: SpikeEvent| e.node_id == id && e.timestamp > cutoff).len() as int
}

/// The value stored under `k`, zero when absent.
pub fn get_level(v: &Vec<(u128, u64)>, k: u128) -> (r: u64)
    requires
        keys_distinct(v@),
    ensures
        r == level_of(v@, k),
{
    match find_key(v, k) {
        Some(i) => {
            proof {
                lemma_key_index(v@, k);
            }
            v[i].1
        },
        None => 0,
    }
}

/// Counts the entries of `s1` that also occur in `s2`.
pub fn count_shared(s1: &Vec<u128>, s2: &Vec<u128>) -> (r: usize)
    ensures
        r == shared_neighbor_count(s1@, s2@),
        r <= s1@.len(),
{
    let ghost pred = |x: u128| s2@.contains(x);
    let mut r: usize = 0;
    let mut i: usize = 0;
    while i < s1.len()
        invariant
            i <= s1@.len(),
            pred == (|x: u128| s2@.contains(x)),
            r == s1@.take(i as int).filter(pred).len(),
            r <= i,
        decreases s1@.len() - i,
    {
        proof {
            assert(s1@.take(i + 1).drop_last() =~= s1@.take(i as int));
            assert(s1@.take(i + 1).last() == s1@[i as int]);
            reveal(Seq::filter);
        }
        if ids_contain(s2, s1[i]) {
            r += 1;
        }
        i += 1;
    }
    proof {
        assert(s1@.take(s1@.len() as int) =~= s1@);
    }
    r
}

/// Counts the spikes of `id` after `cutoff`.
fn count_recent_spikes(hist: &Vec<SpikeEvent>, id: u128, cutoff: u64) -> (r: usize)
    ensures
        r == recent_spike_count(hist@, id, cutoff as int),
        r <= hist@.len(),
{
    let ghost pred = |e: SpikeEvent| e.node_id == id && e.timestamp > cutoff as int;
    let mut r: usize = 0;
    let mut i: usize = 0;
    while i < hist.len()
        invariant
            i <= hist@.len(),
            pred == (|e: SpikeEvent| e.node_id == id && e.timestamp > cutoff as int),
            r == hist@.take(i as int).filter(pred).len(),
            r <= i,
        decreases hist@.len() - i,
    {
        proof {
            assert(hist@.take(i + 1).drop_last() =~= hist@.take(i as int));
            assert(hist@.take(i + 1).last() == hist@[i as int]);
            reveal(Seq::filter);
        }
        let e = hist[i];
        if e.node_id == id && e.timestamp > cutoff {
            r += 1;
        }
        i += 1;
    }
    proof {
        assert(hist@.take(hist@.len() as int) =~= hist@);
    }
    r
}

/// True when the scores never increase along the sequence.
pub open spec fn sorted_desc(s: Seq<(u128, i64)>) -> bool {
    forall|i: int, j: int| 0 <= i < j < s.len() ==> (#[trigger] s[i]).1 >= (#[trigger] s[j]).1
}

/// Sorts scored pairs by score, largest first, by selection.
fn sort_pairs_desc(input: Vec<(u128, i64)>) -> (r: Vec<(u128, i64)>)
    ensures
        r@.to_multiset() == input@.to_multiset(),
        r@.len() == input@.len(),
        sorted_desc(r@),
{
    broadcast use vstd::seq_lib::group_to_multiset_ensures;

    let mut rest = input;
    let mut out: Vec<(u128, i64)> = Vec::new();
    proof {
        assert(out@.to_multiset() =~= Multiset::<(u128, i64)>::empty());
        assert(out@.to_multiset().add(rest@.to_multiset()) =~= input@.to_multiset());
    }
    while rest.len() > 0
        invariant
            out@.to_multiset().add(rest@.to_multiset()) == input@.to_multiset(),
            out@.len() + rest@.len() == input@.len(),
            sorted_desc(out@),
            forall|i: int, j: int|
                0 <= i < out@.len() && 0 <= j < rest@.len() ==> (#[trigger] out@[i]).1 >= (
                #[trigger] rest@[j]).1,
        decreases rest@.len(),
    {
        let mut best: usize = 0;
        let mut k: usize = 1;
        while k < rest.len()
            invariant
                best < k <= rest@.len(),
                rest@.len() > 0,
                forall|m: int| 0 <= m < k ==> (#[trigger] rest@[m]).1 <= rest@[best as int].1,
            decreases rest@.len() - k,
        {
            if rest[k].1 > rest[best].1 {
                best = k;
            }
            k += 1;
        }
        let ghost rest_before = rest@;
        let ghost out_before = out@;
        let chosen = rest.remove(best);
        out.push(chosen);
        proof {
            rest_before.to_multiset_ensures();
            out_before.to_multiset_ensures();
            assert(rest@ == rest_before.remove(best as int));
            assert(rest_before.remove(best as int).to_multiset() =~= rest_before.to_multiset()
                .remove(rest_before[best as int]));
            assert(out@ == out_before.push(chosen));
            assert(out_before.push(chosen).to_multiset() =~= out_before.to_multiset().insert(
                chosen,
            ));
            assert(rest@.to_multiset() =~= rest_before.to_multiset().remove(chosen));
            assert(out@.to_multiset() =~= out_before.to_multiset().insert(chosen));
            assert(rest_before.to_multiset().count(chosen) > 0) by {
                assert(rest_before.contains(chosen)) by {
                    assert(rest_before[best as int] == chosen);
                }
            }
            assert(out@.to_multiset().add(rest@.to_multiset()) =~= input@.to_multiset());
            assert forall|i: int, j: int|
                0 <= i < out@.len() && 0 <= j < rest@.len() implies (#[trigger] out@[i]).1 >= (
            #[trigger] rest@[j]).1 by {
                if i < out_before.len() {
                    if j < best {
                        assert(rest@[j] == rest_before[j]);
                    } else {
                        assert(rest@[j] == rest_before[j + 1]);
                    }
                } else {
                    assert(out@[i] == chosen);
                    if j < best {
                        assert(rest@[j] == rest_before[j]);
                        assert(rest_before[j].1 <= rest_before[best as int].1);
                    } else {
                        assert(rest@[j] == rest_before[j + 1]);
                        assert(rest_before[j + 1].1 <= rest_before[best as int].1);
                    }
                }
            }
            assert forall|i: int, j: int|
                0 <= i < j < out@.len() implies (#[trigger] out@[i]).1 >= (
            #[trigger] out@[j]).1 by {
                if j < out_before.len() {
                    assert(out@[i] == out_before[i] && out@[j] == out_before[j]);
                } else {
                    assert(out@[j] == chosen);
                    assert(out@[i] == out_before[i]);
                    assert(out_before[i].1 >= rest_before[best as int].1);
                }
            }
        }
    }
    proof {
        assert(rest@.to_multiset() =~= Multiset::<(u128, i64)>::empty());
        assert(out@.to_multiset().add(Multiset::<(u128, i64)>::empty()) =~= out@.to_multiset());
    }
    out
}

/// True when the scores never increase along a match list.
pub open spec fn sorted3_desc(s: Seq<(u128, u128, u64)>) -> bool {
    forall|i: int, j: int| 0 <= i < j < s.len() ==> (#[trigger] s[i]).2 >= (#[trigger] s[j]).2
}

/// Sorts matches by score, largest first, by selection.
pub fn sort_triples_desc(input: Vec<(u128, u128, u64)>) -> (r: Vec<(u128, u128, u64)>)
    ensures
        r@.to_multiset() == input@.to_multiset(),
        r@.len() == input@.len(),
        sorted3_desc(r@),
{
    broadcast use vstd::seq_lib::group_to_multiset_ensures;

    let mut rest = input;
    let mut out: Vec<(u128, u128, u64)> = Vec::new();
    proof {
        assert(out@.to_multiset() =~= Multiset::<(u128, u128, u64)>::empty());
        assert(out@.to_multiset().add(rest@.to_multiset()) =~= input@.to_multiset());
    }
    while rest.len() > 0
        invariant
            out@.to_multiset().add(rest@.to_multiset()) == input@.to_multiset(),
            out@.len() + rest@.len() == input@.len(),
            sorted3_desc(out@),
            forall|i: int, j: int|
                0 <= i < out@.len() && 0 <= j < rest@.len() ==> (#[trigger] out@[i]).2 >= (
                #[trigger] rest@[j]).2,
        decreases rest@.len(),
    {
        let mut best: usize = 0;
        let mut k: usize = 1;
        while k < rest.len()
            invariant
                best < k <= rest@.len(),
                rest@.len() > 0,
                forall|m: int| 0 <= m < k ==> (#[trigger] rest@[m]).2 <= rest@[best as int].2,
            decreases rest@.len() - k,
        {
            if rest[k].2 > rest[best].2 {
                best = k;
            }
            k += 1;
        }
        let ghost rest_before = rest@;
        let ghost out_before = out@;
        let chosen = rest.remove(best);
        out.push(chosen);
        proof {
            rest_before.to_multiset_ensures();
            out_before.to_multiset_ensures();
            assert(rest@ == rest_before.remove(best as int));
            assert(rest_before.remove(best as int).to_multiset() =~= rest_before.to_multiset()
                .remove(rest_before[best as int]));
            assert(out@ == out_before.push(chosen));
            assert(out_before.push(chosen).to_multiset() =~= out_before.to_multiset().insert(
                chosen,
            ));
            assert(rest_before.to_multiset().count(chosen) > 0) by {
                assert(rest_before.contains(chosen)) by {
                    assert(rest_before[best as int] == chosen);
                }
            }
            assert(out@.to_multiset().add(rest@.to_multiset()) =~= input@.to_multiset());
            assert forall|i: int, j: int|
                0 <= i < out@.len() && 0 <= j < rest@.len() implies (#[trigger] out@[i]).2 >= (
            #[trigger] rest@[j]).2 by {
                if i < out_before.len() {
                    if j < best {
                        assert(rest@[j] == rest_before[j]);
                    } else {
                        assert(rest@[j] == rest_before[j + 1]);
                    }
                } else {
                    assert(out@[i] == chosen);
                    if j < best {
                        assert(rest@[j] == rest_before[j]);
                        assert(rest_before[j].2 <= rest_before[best as int].2);
                    } else {
                        assert(rest@[j] == rest_before[j + 1]);
                        assert(rest_before[j + 1].2 <= rest_before[best as int].2);
                    }
                }
            }
            assert forall|i: int, j: int|
                0 <= i < j < out@.len() implies (#[trigger] out@[i]).2 >= (
            #[trigger] out@[j]).2 by {
                if j < out_before.len() {
                    assert(out@[i] == out_before[i] && out@[j] == out_before[j]);
                } else {
                    assert(out@[j] == chosen);
                    assert(out@[i] == out_before[i]);
                    assert(out_before[i].2 >= rest_before[best as int].2);
                }
            }
        }
    }
    proof {
        assert(rest@.to_multiset() =~= Multiset::<(u128, u128, u64)>::empty());
        assert(out@.to_multiset().add(Multiset::<(u128, u128, u64)>::empty())
            =~= out@.to_multiset());
    }
    out
}

/// Activations above this level make a node a matching candidate
/// (0.1).
pub const MATCH_MIN_ACTIVATION: u64 = 100_000;

/// Complementarity above this level makes a pair a match (0.5).
pub const MATCH_THRESHOLD: u64 = 500_000;

/// A filtered duplicate-free id sequence stays duplicate-free and
/// keeps only members of `s2`.
proof fn lemma_filter_shared(s1: Seq<u128>, s2: Seq<u128>)
    requires
        crate::hypergraph::distinct_seq(s1),
    ensures
        ({
            let f = s1.filter(|x: u128| s2.contains(x));
            &&& crate::hypergraph::distinct_seq(f)
            &&& forall|i: int| 0 <= i < f.len() ==> s2.contains(#[trigger] f[i])
            &&& forall|i: int| 0 <= i < f.len() ==> s1.contains(#[trigger] f[i])
        }),
    decreases s1.len(),
{
    reveal(Seq::filter);
    if s1.len() > 0 {
        let prefix = s1.drop_last();
        assert(crate::hypergraph::distinct_seq(prefix)) by {
            assert forall|i: int, j: int|
                0 <= i < j < prefix.len() implies prefix[i] != prefix[j] by {
                assert(prefix[i] == s1[i] && prefix[j] == s1[j]);
            }
        }
        lemma_filter_shared(prefix, s2);
        let fp = prefix.filter(|x: u128| s2.contains(x));
        let f = s1.filter(|x: u128| s2.contains(x));
        if s2.contains(s1.last()) {
            assert(f == fp.push(s1.last()));
            assert forall|i: int, j: int| 0 <= i < j < f.len() implies f[i] != f[j] by {
                if j == f.len() - 1 {
                    assert(prefix.contains(f[i]));
                    let w = choose|w: int| 0 <= w < prefix.len() && prefix[w] == f[i];
                    assert(s1[w] == f[i]);
                    assert(s1[s1.len() - 1] == f[j]);
                }
            }
            assert forall|i: int| 0 <= i < f.len() implies s1.contains(#[trigger] f[i]) by {
                if i < fp.len() {
                    assert(prefix.contains(f[i]));
                    let w = choose|w: int| 0 <= w < prefix.len() && prefix[w] == f[i];
                    assert(s1[w] == f[i]);
                } else {
                    assert(s1[s1.len() - 1] == f[i]);
                }
            }
        } else {
            assert(f == fp);
            assert forall|i: int| 0 <= i < f.len() implies s1.contains(#[trigger] f[i]) by {
                assert(prefix.contains(f[i]));
                let w = choose|w: int| 0 <= w < prefix.len() && prefix[w] == f[i];
                assert(s1[w] == f[i]);
            }
        }
    }
}

/// Between duplicate-free sequences the shared count is bounded by
/// both lengths.
pub proof fn lemma_shared_bounds(s1: Seq<u128>, s2: Seq<u128>)
    requires
        crate::hypergraph::distinct_seq(s1),
        crate::hypergraph::distinct_seq(s2),
    ensures
        0 <= shared_neighbor_count(s1, s2) <= s1.len(),
        shared_neighbor_count(s1, s2) <= s2.len(),
{
    let f = s1.filter(|x: u128| s2.contains(x));
    s1.lemma_filter_len(|x: u128| s2.contains(x));
    lemma_filter_shared(s1, s2);
    assert(f.no_duplicates()) by {
        assert forall|i: int, j: int|
            0 <= i < f.len() && 0 <= j < f.len() && i != j implies f[i] != f[j] by {
            if i < j {
                assert(f[i] != f[j]);
            } else {
                assert(f[j] != f[i]);
            }
        }
    }
    assert(f.to_set().subset_of(s2.to_set())) by {
        assert forall|x: u128| f.to_set().contains(x) implies s2.to_set().contains(x) by {
            assert(f.contains(x));
            let i = choose|i: int| 0 <= i < f.len() && f[i] == x;
            assert(s2.contains(x));
        }
    }
    f.unique_seq_to_set();
    s2.lemma_cardinality_of_set();
    vstd::set_lib::lemma_len_subset(f.to_set(), s2.to_set());
}

/// A neighbour list never outgrows the store.
pub proof fn lemma_neighbors_len_bound(g: HyperGraph, id: u128)
    requires
        g.wf(),
    ensures
        g.neighbors_of(id).len() <= g.nodes_seq().len(),
{
    g.lemma_neighbors_of(id);
    let nbs = g.neighbors_of(id);
    assert(nbs.no_duplicates()) by {
        assert forall|i: int, j: int|
            0 <= i < nbs.len() && 0 <= j < nbs.len() && i != j implies nbs[i] != nbs[j] by {
            if i < j {
                assert(nbs[i] != nbs[j]);
            } else {
                assert(nbs[j] != nbs[i]);
            }
        }
    }
    let node_ids = g.nodes_seq().map_values(|n: HyperNode| n.id);
    assert(nbs.to_set().subset_of(node_ids.to_set())) by {
        assert forall|x: u128| nbs.to_set().contains(x) implies node_ids.to_set().contains(x) by {
            assert(nbs.contains(x));
            let j = choose|j: int|
                0 <= j < g.edges@.len() && (#[trigger] g.edges@[j]).node_ids@.contains(id)
                    && g.edges@[j].node_ids@.contains(x);
            let m = choose|m: int|
                0 <= m < g.edges@[j].node_ids@.len() && g.edges@[j].node_ids@[m] == x;
            assert(g.has_node(g.edges@[j].node_ids@[m]));
            let w = choose|w: int|
                0 <= w < g.nodes@.len() && (#[trigger] g.nodes@[w]).id == x;
            assert(node_ids[w] == x);
            assert(node_ids.contains(x));
        }
    }
    nbs.unique_seq_to_set();
    node_ids.lemma_cardinality_of_set();
    vstd::set_lib::lemma_len_subset(nbs.to_set(), node_ids.to_set());
}

/// True when a weight is stored for the canonical pair `(a, b)`.
pub open spec fn pair_has(s: Seq<SynapticWeight>, a: u128, b: u128) -> bool {
    exists|i: int| 0 <= i < s.len() && (#[trigger] s[i]).a == a && s[i].b == b
}

/// The position of the entry for the pair.
pub open spec fn pair_index(s: Seq<SynapticWeight>, a: u128, b: u128) -> int {
    choose|i: int| 0 <= i < s.len() && (#[trigger] s[i]).a == a && s[i].b == b
}

/// The stored weight of the pair, zero when absent.
pub open spec fn weight_of(s: Seq<SynapticWeight>, a: u128, b: u128) -> int {
    if pair_has(s, a, b) {
        s[pair_index(s, a, b)].weight as int
    } else {
        0
    }
}

/// The sequence with the pair bound to `w`.
pub open spec fn set_pair(s: Seq<SynapticWeight>, a: u128, b: u128, w: i64) -> Seq<
    SynapticWeight,
> {
    if pair_has(s, a, b) {
        s.update(pair_index(s, a, b), SynapticWeight { a, b, weight: w })
    } else {
        s.push(SynapticWeight { a, b, weight: w })
    }
}

/// A weight sum clipped to `[-ONE, ONE]`.
pub open spec fn clamp_weight(w: int) -> int {
    if w < -(ONE as int) {
        -(ONE as int)
    } else if w > ONE as int {
        ONE as int
    } else {
        w
    }
}

/// One hundredth of the correlation, rounded toward zero.
pub open spec fn learn_delta(c: int) -> int {
    if c >= 0 {
        c / (LEARNING_DIVISOR as int)
    } else {
        -((-c) / (LEARNING_DIVISOR as int))
    }
}

/// The position of the entry for the canonical pair, if any.
fn find_pair(v: &Vec<SynapticWeight>, a: u128, b: u128) -> (r: Option<usize>)
    ensures
        match r {
            Some(i) => i < v@.len() && v@[i as int].a == a && v@[i as int].b == b,
            None => !pair_has(v@, a, b),
        },
{
    let mut i: usize = 0;
    while i < v.len()
        invariant
            i <= v@.len(),
            forall|m: int| 0 <= m < i ==> !((#[trigger] v@[m]).a == a && v@[m].b == b),
        decreases v@.len() - i,
    {
        if v[i].a == a && v[i].b == b {
            return Some(i);
        }
        i += 1;
    }
    None
}

/// With distinct pairs the chosen index is the one occurrence.
proof fn lemma_pair_index(s: Seq<SynapticWeight>, a: u128, b: u128)
    requires
        forall|i: int, j: int|
            0 <= i < j < s.len() ==> !((#[trigger] s[i]).a == (#[trigger] s[j]).a && s[i].b
                == s[j].b),
        pair_has(s, a, b),
    ensures
        0 <= pair_index(s, a, b) < s.len(),
        s[pair_index(s, a, b)].a == a,
        s[pair_index(s, a, b)].b == b,
        forall|i: int|
            0 <= i < s.len() && (#[trigger] s[i]).a == a && s[i].b == b ==> i == pair_index(
                s,
                a,
                b,
            ),
{
    let w = pair_index(s, a, b);
    assert(0 <= w < s.len() && s[w].a == a && s[w].b == b);
    assert forall|i: int|
        0 <= i < s.len() && (#[trigger] s[i]).a == a && s[i].b == b implies i == w by {
        if i < w {
            assert(!(s[i].a == s[w].a && s[i].b == s[w].b));
        } else if w < i {
            assert(!(s[w].a == s[i].a && s[w].b == s[i].b));
        }
    }
}

impl SpikeProcessor {
    /// Everything the engine holds is well formed and its decay rate
    /// is a genuine decay.
    pub open spec fn wf(self) -> bool {
        &&& self.config.wf()
        &&& self.neural_state.wf()
    }

    /// A fresh engine under the given parameters.
    pub fn new(config: DatabaseConfig, now_ms: u64) -> (p: SpikeProcessor)
        requires
            config.wf(),
        ensures
            p.wf(),
            p.config == config,
            p.neural_state.activations@.len() == 0,
            p.neural_state.spike_history@.len() == 0,
            p.neural_state.refractory_until@.len() == 0,
            p.neural_state.synaptic_weights@.len() == 0,
            p.neural_state.total_spikes == 0,
            p.neural_state.processing_cycles == 0,
    {
        SpikeProcessor { config, neural_state: NeuralState::new(now_ms) }
    }

    /// Seeds a new node's activation at zero.
    pub fn process_new_node(&mut self, node_id: u128)
        requires
            old(self).wf(),
        ensures
            final(self).wf(),
            final(self).neural_state.activations@ == set_key(
                old(self).neural_state.activations@,
                node_id,
                0,
            ),
            final(self).neural_state.spike_history@ == old(self).neural_state.spike_history@,
            final(self).neural_state.refractory_until@ == old(
                self,
            ).neural_state.refractory_until@,
            final(self).neural_state.synaptic_weights@ == old(
                self,
            ).neural_state.synaptic_weights@,
            final(self).neural_state.total_spikes == old(self).neural_state.total_spikes,
            final(self).neural_state.processing_cycles == old(
                self,
            ).neural_state.processing_cycles,
            final(self).config == old(self).config,
    {
        proof {
            lemma_set_key(self.neural_state.activations@, node_id, 0);
        }
        put_key(&mut self.neural_state.activations, node_id, 0);
    }

    /// Applies one spike of `initial_strength` to each source in
    /// order.  A source inside its refractory window is skipped; any
    /// other source takes the activation, gets a fresh refractory
    /// deadline, and is recorded in the history.  A node already
    /// refractory when the call starts is never touched.
    pub fn propagate_spike(&mut self, source_nodes: Vec<u128>, initial_strength: u64, now_ms: u64)
        requires
            old(self).wf(),
            initial_strength <= MAX_LEVEL,
        ensures
            final(self).wf(),
            ({
                let m0 = (
                    old(self).neural_state.activations@,
                    old(self).neural_state.refractory_until@,
                    old(self).neural_state.spike_history@,
                    old(self).neural_state.total_spikes as int,
                );
                let out = spike_fold(
                    m0,
                    source_nodes@,
                    initial_strength,
                    now_ms,
                    old(self).config.refractory_period,
                );
                &&& final(self).neural_state.activations@ == out.0
                &&& final(self).neural_state.refractory_until@ == out.1
                &&& final(self).neural_state.spike_history@ == out.2
                &&& final(self).neural_state.total_spikes == out.3
            }),
            forall|id: u128|
                has_key(old(self).neural_state.refractory_until@, id) && stored(
                    old(self).neural_state.refractory_until@,
                    id,
                ) > now_ms ==> #[trigger] level_of(final(self).neural_state.activations@, id)
                == level_of(old(self).neural_state.activations@, id),
            final(self).neural_state.synaptic_weights@ == old(
                self,
            ).neural_state.synaptic_weights@,
            final(self).neural_state.processing_cycles == old(
                self,
            ).neural_state.processing_cycles,
            final(self).neural_state.last_update == now_ms,
            final(self).config == old(self).config,
    {
        let period = self.config.refractory_period;
        let ghost m0 = (
            self.neural_state.activations@,
            self.neural_state.refractory_until@,
            self.neural_state.spike_history@,
            self.neural_state.total_spikes as int,
        );
        proof {
            assert(source_nodes@.skip(0) =~= source_nodes@);
        }
        let mut i: usize = 0;
        while i < source_nodes.len()
            invariant
                i <= source_nodes@.len(),
                keys_distinct(self.neural_state.activations@),
                keys_distinct(self.neural_state.refractory_until@),
                forall|k: int|
                    0 <= k < self.neural_state.activations@.len() ==> (
                    #[trigger] self.neural_state.activations@[k]).1 <= MAX_LEVEL,
                initial_strength <= MAX_LEVEL,
                0 <= self.neural_state.total_spikes <= u64::MAX,
                period == old(self).config.refractory_period,
                keys_distinct(m0.0),
                keys_distinct(m0.1),
                spike_fold(
                    (
                        self.neural_state.activations@,
                        self.neural_state.refractory_until@,
                        self.neural_state.spike_history@,
                        self.neural_state.total_spikes as int,
                    ),
                    source_nodes@.skip(i as int),
                    initial_strength,
                    now_ms,
                    period,
                ) == spike_fold(m0, source_nodes@, initial_strength, now_ms, period),
                self.neural_state.synaptic_weights@ == old(self).neural_state.synaptic_weights@,
                self.neural_state.processing_cycles == old(self).neural_state.processing_cycles,
                self.neural_state.last_update == old(self).neural_state.last_update,
                self.config == old(self).config,
                m0 == (
                    old(self).neural_state.activations@,
                    old(self).neural_state.refractory_until@,
                    old(self).neural_state.spike_history@,
                    old(self).neural_state.total_spikes as int,
                ),
            decreases source_nodes@.len() - i,
        {
            let node_id = source_nodes[i];
            let ghost cur = (
                self.neural_state.activations@,
                self.neural_state.refractory_until@,
                self.neural_state.spike_history@,
                self.neural_state.total_spikes as int,
            );
            proof {
                assert(source_nodes@.skip(i as int)[0] == node_id);
                assert(source_nodes@.skip(i as int).drop_first() =~= source_nodes@.skip(i + 1));
                assert(spike_fold(
                    cur,
                    source_nodes@.skip(i as int),
                    initial_strength,
                    now_ms,
                    period,
                ) == spike_fold(
                    spike_step(cur, node_id, initial_strength, now_ms, period),
                    source_nodes@.skip(i + 1),
                    initial_strength,
                    now_ms,
                    period,
                ));
            }
            let blocked = match find_key(&self.neural_state.refractory_until, node_id) {
                Some(ri) => {
                    proof {
                        lemma_key_index(self.neural_state.refractory_until@, node_id);
                    }
                    self.neural_state.refractory_until[ri].1 > now_ms
                },
                None => false,
            };
            if !blocked {
                proof {
                    lemma_set_key(self.neural_state.activations@, node_id, initial_strength);
                    lemma_set_key(
                        self.neural_state.refractory_until@,
                        node_id,
                        sat_add(now_ms as int, period as int) as u64,
                    );
                }
                put_key(&mut self.neural_state.activations, node_id, initial_strength);
                let deadline = sat_add64(now_ms, period);
                put_key(&mut self.neural_state.refractory_until, node_id, deadline);
                self.neural_state.spike_history.push(
                    SpikeEvent {
                        node_id,
                        timestamp: now_ms,
                        intensity: initial_strength,
                        propagation_depth: 0,
                    },
                );
                self.neural_state.total_spikes = sat_add64(self.neural_state.total_spikes, 1);
            }
            i += 1;
        }
        proof {
            assert(source_nodes@.skip(source_nodes@.len() as int).len() == 0);
        }
        self.neural_state.last_update = now_ms;
        proof {
            lemma_spike_fold_wf(m0, source_nodes@, initial_strength, now_ms, period);
            assert forall|id: u128|
                has_key(m0.1, id) && stored(m0.1, id) > now_ms implies #[trigger] level_of(
                self.neural_state.activations@,
                id,
            ) == level_of(m0.0, id) by {
                lemma_spike_fold_refractory(
                    m0,
                    source_nodes@,
                    initial_strength,
                    now_ms,
                    period,
                    id,
                );
            }
        }
    }

    /// Hebbian learning: adds one hundredth of the observed
    /// correlation to the weight of the unordered pair, clipped to
    /// `[-ONE, ONE]`.  Weights therefore stay in that band through any
    /// sequence of updates.
    pub fn update_synaptic_weights(&mut self, node1: u128, node2: u128, correlation: i64)
        requires
            old(self).wf(),
            -(MAX_LEVEL as int) <= correlation <= MAX_LEVEL as int,
        ensures
            final(self).wf(),
            ({
                let lo = if node1 < node2 { node1 } else { node2 };
                let hi = if node1 < node2 { node2 } else { node1 };
                let prior = weight_of(old(self).neural_state.synaptic_weights@, lo, hi);
                final(self).neural_state.synaptic_weights@ == set_pair(
                    old(self).neural_state.synaptic_weights@,
                    lo,
                    hi,
                    clamp_weight(prior + learn_delta(correlation as int)) as i64,
                )
            }),
            forall|i: int|
                0 <= i < final(self).neural_state.synaptic_weights@.len() ==> -(ONE as int) <= (
                #[trigger] final(self).neural_state.synaptic_weights@[i]).weight <= ONE as int,
            final(self).neural_state.activations@ == old(self).neural_state.activations@,
            final(self).neural_state.spike_history@ == old(self).neural_state.spike_history@,
            final(self).neural_state.refractory_until@ == old(
                self,
            ).neural_state.refractory_until@,
            final(self).neural_state.total_spikes == old(self).neural_state.total_spikes,
            final(self).neural_state.processing_cycles == old(
                self,
            ).neural_state.processing_cycles,
            final(self).config == old(self).config,
    {
        let (lo, hi) = if node1 < node2 {
            (node1, node2)
        } else {
            (node2, node1)
        };
        let mag: u64 = if correlation >= 0 {
            correlation as u64
        } else {
            (-correlation) as u64
        };
        let d: u64 = mag / LEARNING_DIVISOR;
        let delta: i64 = if correlation >= 0 {
            d as i64
        } else {
            -(d as i64)
        };
        proof {
            assert(delta == learn_delta(correlation as int));
        }
        let ghost weights0 = self.neural_state.synaptic_weights@;
        let (w_old, slot) = match find_pair(&self.neural_state.synaptic_weights, lo, hi) {
            Some(i) => {
                proof {
                    lemma_pair_index(weights0, lo, hi);
                }
                (self.neural_state.synaptic_weights[i].weight, Some(i))
            },
            None => (0i64, None),
        };
        proof {
            assert(w_old as int == weight_of(weights0, lo, hi));
        }
        let sum: i64 = w_old + delta;
        let limit: i64 = ONE as i64;
        let w_new: i64 = if sum < -limit {
            -limit
        } else if sum > limit {
            limit
        } else {
            sum
        };
        proof {
            assert(w_new as int == clamp_weight(
                weight_of(weights0, lo, hi) + learn_delta(correlation as int),
            ));
        }
        match slot {
            Some(i) => {
                let ghost before = self.neural_state.synaptic_weights@;
                self.neural_state.synaptic_weights.remove(i);
                self.neural_state.synaptic_weights.insert(
                    i,
                    SynapticWeight { a: lo, b: hi, weight: w_new },
                );
                proof {
                    assert(self.neural_state.synaptic_weights@ =~= before.update(
                        i as int,
                        SynapticWeight { a: lo, b: hi, weight: w_new },
                    ));
                    lemma_pair_index(weights0, lo, hi);
                    assert(self.neural_state.synaptic_weights@ == set_pair(
                        weights0,
                        lo,
                        hi,
                        w_new,
                    ));
                    assert forall|a2: int, b2: int|
                        0 <= a2 < b2 < self.neural_state.synaptic_weights@.len() implies !((
                        #[trigger] self.neural_state.synaptic_weights@[a2]).a == (
                        #[trigger] self.neural_state.synaptic_weights@[b2]).a
                        && self.neural_state.synaptic_weights@[a2].b
                        == self.neural_state.synaptic_weights@[b2].b) by {
                        assert(self.neural_state.synaptic_weights@[a2].a == before[a2].a
                            && self.neural_state.synaptic_weights@[a2].b == before[a2].b);
                        assert(self.neural_state.synaptic_weights@[b2].a == before[b2].a
                            && self.neural_state.synaptic_weights@[b2].b == before[b2].b);
                    }
                }
            },
            None => {
                self.neural_state.synaptic_weights.push(
                    SynapticWeight { a: lo, b: hi, weight: w_new },
                );
                proof {
                    let out = self.neural_state.synaptic_weights@;
                    assert forall|a2: int, b2: int|
                        0 <= a2 < b2 < out.len() implies !((#[trigger] out[a2]).a == (
                        #[trigger] out[b2]).a && out[a2].b == out[b2].b) by {
                        if b2 == weights0.len() {
                            assert(out[a2] == weights0[a2]);
                            if out[a2].a == lo && out[a2].b == hi {
                                assert(pair_has(weights0, lo, hi));
                            }
                        } else {
                            assert(out[a2] == weights0[a2] && out[b2] == weights0[b2]);
                        }
                    }
                }
            },
        }
    }

    /// One decay sweep: multiplies every activation by the configured
    /// decay rate, drops spike history older than one hour, drops
    /// refractory deadlines that have passed, and counts the cycle.
    pub fn apply_temporal_decay(&mut self, now_ms: u64)
        requires
            old(self).wf(),
        ensures
            final(self).wf(),
            final(self).neural_state.activations@.len() == old(
                self,
            ).neural_state.activations@.len(),
            forall|i: int|
                0 <= i < old(self).neural_state.activations@.len()
                    ==> (#[trigger] final(self).neural_state.activations@[i]).0 == old(
                    self,
                ).neural_state.activations@[i].0 && final(self).neural_state.activations@[i].1
                    == fx_mul(
                    old(self).neural_state.activations@[i].1 as int,
                    old(self).config.decay_rate as int,
                ),
            final(self).neural_state.spike_history@ == old(
                self,
            ).neural_state.spike_history@.filter(
                |e: SpikeEvent|
                    e.timestamp > sat_sub(now_ms as int, HISTORY_WINDOW_MS as int),
            ),
            final(self).neural_state.refractory_until@ == old(
                self,
            ).neural_state.refractory_until@.filter(|p: (u128, u64)| p.1 > now_ms),
            final(self).neural_state.synaptic_weights@ == old(
                self,
            ).neural_state.synaptic_weights@,
            final(self).neural_state.total_spikes == old(self).neural_state.total_spikes,
            final(self).neural_state.processing_cycles == sat_add(
                old(self).neural_state.processing_cycles as int,
                1,
            ),
            final(self).neural_state.last_update == now_ms,
            final(self).config == old(self).config,
    {
        let rate = self.config.decay_rate;
        let mut i: usize = 0;
        while i < self.neural_state.activations.len()
            invariant
                old(self).wf(),
                rate == old(self).config.decay_rate,
                rate <= ONE,
                i <= self.neural_state.activations@.len(),
                self.neural_state.activations@.len() == old(
                    self,
                ).neural_state.activations@.len(),
                forall|k: int|
                    0 <= k < i ==> (#[trigger] self.neural_state.activations@[k]).0 == old(
                        self,
                    ).neural_state.activations@[k].0 && self.neural_state.activations@[k].1
                        == fx_mul(
                        old(self).neural_state.activations@[k].1 as int,
                        rate as int,
                    ) && self.neural_state.activations@[k].1 <= MAX_LEVEL,
                forall|k: int|
                    i <= k < self.neural_state.activations@.len()
                        ==> #[trigger] self.neural_state.activations@[k] == old(
                        self,
                    ).neural_state.activations@[k],
                self.neural_state.spike_history@ == old(self).neural_state.spike_history@,
                self.neural_state.refractory_until@ == old(self).neural_state.refractory_until@,
                self.neural_state.synaptic_weights@ == old(self).neural_state.synaptic_weights@,
                self.neural_state.total_spikes == old(self).neural_state.total_spikes,
                self.neural_state.processing_cycles == old(self).neural_state.processing_cycles,
                self.neural_state.last_update == old(self).neural_state.last_update,
                self.config == old(self).config,
            decreases self.neural_state.activations@.len() - i,
        {
            let ghost before = self.neural_state.activations@;
            let entry = self.neural_state.activations[i];
            let a = mul_rate(entry.1, rate);
            self.neural_state.activations.remove(i);
            self.neural_state.activations.insert(i, (entry.0, a));
            proof {
                assert(self.neural_state.activations@ =~= before.update(
                    i as int,
                    (entry.0, a),
                ));
            }
            i += 1;
        }
        let cutoff = sat_sub64(now_ms, HISTORY_WINDOW_MS);
        let ghost hist0 = self.neural_state.spike_history@;
        let ghost hist_pred = |e: SpikeEvent|
            e.timestamp > sat_sub(now_ms as int, HISTORY_WINDOW_MS as int);
        let mut kept: Vec<SpikeEvent> = Vec::new();
        let mut h: usize = 0;
        while h < self.neural_state.spike_history.len()
            invariant
                h <= hist0.len(),
                hist0 == self.neural_state.spike_history@,
                cutoff == sat_sub(now_ms as int, HISTORY_WINDOW_MS as int),
                hist_pred == (|e: SpikeEvent|
                    e.timestamp > sat_sub(now_ms as int, HISTORY_WINDOW_MS as int)),
                kept@ == hist0.take(h as int).filter(hist_pred),
            decreases hist0.len() - h,
        {
            proof {
                assert(hist0.take(h + 1).drop_last() =~= hist0.take(h as int));
                assert(hist0.take(h + 1).last() == hist0[h as int]);
                reveal(Seq::filter);
            }
            let e = self.neural_state.spike_history[h];
            if e.timestamp > cutoff {
                kept.push(e);
            }
            h += 1;
        }
        proof {
            assert(hist0.take(hist0.len() as int) =~= hist0);
        }
        self.neural_state.spike_history = kept;
        let ghost refr0 = self.neural_state.refractory_until@;
        let ghost refr_pred = |p: (u128, u64)| p.1 > now_ms;
        let mut kept_refr: Vec<(u128, u64)> = Vec::new();
        let mut q: usize = 0;
        while q < self.neural_state.refractory_until.len()
            invariant
                q <= refr0.len(),
                refr0 == self.neural_state.refractory_until@,
                keys_distinct(refr0),
                refr_pred == (|p: (u128, u64)| p.1 > now_ms),
                kept_refr@ == refr0.take(q as int).filter(refr_pred),
                keys_distinct(kept_refr@),
                forall|x: u128|
                    #[trigger] has_key(kept_refr@, x) ==> exists|m: int|
                        0 <= m < q && (#[trigger] refr0[m]).0 == x,
            decreases refr0.len() - q,
        {
            proof {
                assert(refr0.take(q + 1).drop_last() =~= refr0.take(q as int));
                assert(refr0.take(q + 1).last() == refr0[q as int]);
                reveal(Seq::filter);
            }
            let p = self.neural_state.refractory_until[q];
            if p.1 > now_ms {
                proof {
                    if has_key(kept_refr@, p.0) {
                        let m = choose|m: int|
                            0 <= m < q && (#[trigger] refr0[m]).0 == p.0;
                        assert(refr0[m].0 == refr0[q as int].0);
                        assert(false);
                    }
                }
                let ghost kept_before = kept_refr@;
                kept_refr.push(p);
                proof {
                    assert forall|a2: int, b2: int|
                        0 <= a2 < b2 < kept_refr@.len() implies (#[trigger] kept_refr@[a2]).0 != (
                        #[trigger] kept_refr@[b2]).0 by {
                        if b2 == kept_before.len() {
                            assert(kept_refr@[a2] == kept_before[a2]);
                            assert(has_key(kept_before, kept_before[a2].0));
                        } else {
                            assert(kept_refr@[a2] == kept_before[a2]);
                            assert(kept_refr@[b2] == kept_before[b2]);
                        }
                    }
                    assert forall|x: u128| #[trigger] has_key(kept_refr@, x) implies exists|m: int|
                        0 <= m < q + 1 && (#[trigger] refr0[m]).0 == x by {
                        let w = choose|w: int|
                            0 <= w < kept_refr@.len() && (#[trigger] kept_refr@[w]).0 == x;
                        if w < kept_before.len() {
                            assert(has_key(kept_before, x));
                            let m = choose|m: int|
                                0 <= m < q && (#[trigger] refr0[m]).0 == x;
                            assert(refr0[m].0 == x);
                        } else {
                            assert(refr0[q as int].0 == x);
                        }
                    }
                }
            } else {
                proof {
                    assert forall|x: u128| #[trigger] has_key(kept_refr@, x) implies exists|m: int|
                        0 <= m < q + 1 && (#[trigger] refr0[m]).0 == x by {
                        let m = choose|m: int|
                            0 <= m < q && (#[trigger] refr0[m]).0 == x;
                        assert(refr0[m].0 == x);
                    }
                }
            }
            q += 1;
        }
        proof {
            assert(refr0.take(refr0.len() as int) =~= refr0);
        }
        self.neural_state.refractory_until = kept_refr;
        self.neural_state.processing_cycles = sat_add64(self.neural_state.processing_cycles, 1);
        self.neural_state.last_update = now_ms;
    }

    /// Bounded cascade from one node: a depth-first walk attenuated by
    /// the strongest shared edge and the configured decay rate, each
    /// node visited at most once, the source left out of the result.
    pub fn simulate_cascade(
        &self,
        graph: &HyperGraph,
        source_node: u128,
        activation_strength: u64,
    ) -> (r: Vec<(u128, u64)>)
        requires
            self.wf(),
            graph.wf(),
            activation_strength <= MAX_LEVEL,
        ensures
            r@ == crate::traverse::effects_of(
                crate::traverse::cascade_frames(
                    *graph,
                    self.config.decay_rate,
                    self.config.max_cascade_depth,
                    source_node,
                    activation_strength,
                ),
                source_node,
            ),
            forall|i: int| 0 <= i < r@.len() ==> (#[trigger] r@[i]).0 != source_node,
            forall|i: int, j: int|
                0 <= i < j < r@.len() ==> (#[trigger] r@[i]).0 != (#[trigger] r@[j]).0,
            forall|i: int| 0 <= i < r@.len() ==> graph.has_node((#[trigger] r@[i]).0),
    {
        let frames = crate::traverse::run_traversal(
            graph,
            source_node,
            activation_strength,
            self.config.decay_rate,
            self.config.max_cascade_depth,
        );
        let out = crate::traverse::collect_effects(&frames, source_node);
        proof {
            crate::traverse::lemma_cascade_props(
                *graph,
                self.config.decay_rate,
                self.config.max_cascade_depth,
                source_node,
                activation_strength,
            );
            crate::traverse::lemma_effects_props(frames@, source_node);
            assert forall|i: int|
                0 <= i < out@.len() implies graph.has_node((#[trigger] out@[i]).0) by {
                let k = choose|k: int|
                    0 <= k < frames@.len() && (#[trigger] frames@[k]).id == out@[i].0
                        && frames@[k].strength == out@[i].1;
                assert(frames@[k].id == source_node || graph.has_node(frames@[k].id));
            }
        }
        out
    }

    /// The similarity score of `other` against `target`: two fifths
    /// activation proximity, two fifths shared-neighbourhood ratio,
    /// one fifth spike-rate similarity over the last ten minutes.
    pub open spec fn similarity_of(
        self,
        g: HyperGraph,
        target: u128,
        other: u128,
        now_ms: u64,
    ) -> int {
        let acts = self.neural_state.activations@;
        let a = activation_sim(level_of(acts, target) as int, level_of(acts, other) as int);
        let tn = g.neighbors_of(target);
        let on = g.neighbors_of(other);
        let ts = structural_sim(
            shared_neighbor_count(tn, on),
            crate::fixed::max_int(tn.len() as int, on.len() as int),
        );
        let cutoff = sat_sub(now_ms as int, RECENT_WINDOW_MS as int);
        let hist = self.neural_state.spike_history@;
        let tt = temporal_sim(
            recent_spike_count(hist, target, cutoff),
            recent_spike_count(hist, other, cutoff),
        );
        trunc_div10(4 * a + 4 * ts + 2 * tt)
    }

    /// Computes [`Self::similarity_of`].
    fn similarity_exec(&self, graph: &HyperGraph, target: u128, other: u128, now_ms: u64) -> (r:
        i64)
        requires
            self.wf(),
            graph.wf(),
        ensures
            r == self.similarity_of(*graph, target, other, now_ms),
            -5 * (MAX_LEVEL as int) <= r <= ONE,
    {
        let a_t = get_level(&self.neural_state.activations, target);
        let a_o = get_level(&self.neural_state.activations, other);
        let a: i64 = ONE as i64 - crate::fixed::dist64(a_t, a_o) as i64;
        let tn = graph.get_neighbors(target);
        let on = graph.get_neighbors(other);
        let shared = count_shared(&tn, &on);
        let tn_len = tn.len();
        let on_len = on.len();
        let maxn: usize = if tn_len >= on_len {
            tn_len
        } else {
            on_len
        };
        let ts: i64 = if maxn > 0 {
            let q: u128 = (shared as u128) * (ONE as u128) / (maxn as u128);
            proof {
                assert((shared as int) * (ONE as int) / (maxn as int) <= ONE as int)
                    by (nonlinear_arith)
                    requires
                        0 <= shared as int <= maxn as int,
                        maxn as int > 0,
                ;
                assert(q == structural_sim(shared as int, maxn as int));
            }
            q as i64
        } else {
            0
        };
        let cutoff = sat_sub64(now_ms, RECENT_WINDOW_MS);
        let c_t = count_recent_spikes(&self.neural_state.spike_history, target, cutoff);
        let c_o = count_recent_spikes(&self.neural_state.spike_history, other, cutoff);
        let tt: i64 = if c_t == 0 && c_o == 0 {
            ONE as i64
        } else if c_t == 0 || c_o == 0 {
            0
        } else {
            let lo: usize = if c_t <= c_o {
                c_t
            } else {
                c_o
            };
            let hi: usize = if c_t >= c_o {
                c_t
            } else {
                c_o
            };
            let q: u128 = (lo as u128) * (ONE as u128) / (hi as u128);
            proof {
                assert((lo as int) * (ONE as int) / (hi as int) <= ONE as int)
                    by (nonlinear_arith)
                    requires
                        0 <= lo as int <= hi as int,
                        hi as int > 0,
                ;
                assert(q == temporal_sim(c_t as int, c_o as int));
            }
            q as i64
        };
        proof {
            assert(0 <= ts <= ONE);
            assert(0 <= tt <= ONE);
            assert(ONE as int - MAX_LEVEL as int <= a <= ONE);
        }
        let numerator: i64 = 4 * a + 4 * ts + 2 * tt;
        let r: i64 = if numerator >= 0 {
            ((numerator as u64) / 10) as i64
        } else {
            -((((-numerator) as u64) / 10) as i64)
        };
        proof {
            assert(r == trunc_div10(numerator as int));
        }
        r
    }

    /// The nodes whose similarity to `target` reaches `threshold`,
    /// paired with their scores, in store order.
    pub open spec fn similar_candidates(
        self,
        g: HyperGraph,
        target: u128,
        threshold: i64,
        now_ms: u64,
    ) -> Seq<(u128, i64)> {
        g.nodes_seq().filter(
            |n: HyperNode|
                n.id != target && self.similarity_of(g, target, n.id, now_ms) >= threshold,
        ).map_values(|n: HyperNode| (n.id, self.similarity_of(g, target, n.id, now_ms) as i64))
    }

    /// Every node scoring at least `threshold` against `target`, with
    /// its score, sorted by score descending (ties in no promised
    /// order).
    pub fn find_similar_nodes(
        &self,
        graph: &HyperGraph,
        target_node: u128,
        threshold: i64,
        now_ms: u64,
    ) -> (r: Vec<(u128, i64)>)
        requires
            self.wf(),
            graph.wf(),
        ensures
            r@.to_multiset() == self.similar_candidates(
                *graph,
                target_node,
                threshold,
                now_ms,
            ).to_multiset(),
            r@.len() == self.similar_candidates(*graph, target_node, threshold, now_ms).len(),
            sorted_desc(r@),
    {
        let ghost pred = |n: HyperNode|
            n.id != target_node && self.similarity_of(*graph, target_node, n.id, now_ms)
                >= threshold;
        let ghost to_entry = |n: HyperNode|
            (n.id, self.similarity_of(*graph, target_node, n.id, now_ms) as i64);
        let nodes = graph.nodes();
        let mut found: Vec<(u128, i64)> = Vec::new();
        let mut i: usize = 0;
        while i < nodes.len()
            invariant
                self.wf(),
                graph.wf(),
                nodes@ == graph.nodes_seq(),
                i <= nodes@.len(),
                pred == (|n: HyperNode|
                    n.id != target_node && self.similarity_of(*graph, target_node, n.id, now_ms)
                        >= threshold),
                to_entry == (|n: HyperNode|
                    (n.id, self.similarity_of(*graph, target_node, n.id, now_ms) as i64)),
                found@ == nodes@.take(i as int).filter(pred).map_values(to_entry),
            decreases nodes@.len() - i,
        {
            let ghost prefix = nodes@.take(i as int);
            proof {
                assert(nodes@.take(i + 1).drop_last() =~= prefix);
                assert(nodes@.take(i + 1).last() == nodes@[i as int]);
                reveal(Seq::filter);
            }
            let nid = nodes[i].id;
            if nid != target_node {
                let score = self.similarity_exec(graph, target_node, nid, now_ms);
                if score >= threshold {
                    found.push((nid, score));
                    proof {
                        assert(nodes@.take(i + 1).filter(pred) == prefix.filter(pred).push(
                            nodes@[i as int],
                        ));
                        assert(prefix.filter(pred).push(nodes@[i as int]).map_values(to_entry)
                            =~= prefix.filter(pred).map_values(to_entry).push(
                            to_entry(nodes@[i as int]),
                        ));
                    }
                } else {
                    proof {
                        assert(nodes@.take(i + 1).filter(pred) == prefix.filter(pred));
                    }
                }
            } else {
                proof {
                    assert(nodes@.take(i + 1).filter(pred) == prefix.filter(pred));
                }
            }
            i += 1;
        }
        proof {
            assert(nodes@.take(nodes@.len() as int) =~= nodes@);
        }
        sort_pairs_desc(found)
    }

    /// With both activation levels at most one, a similarity score
    /// lies in `[0, ONE]`.
    pub proof fn lemma_similarity_bounds(
        self,
        g: HyperGraph,
        target: u128,
        other: u128,
        now_ms: u64,
    )
        requires
            self.wf(),
            g.wf(),
            level_of(self.neural_state.activations@, target) <= ONE,
            level_of(self.neural_state.activations@, other) <= ONE,
        ensures
            0 <= self.similarity_of(g, target, other, now_ms) <= ONE as int,
    {
        let acts = self.neural_state.activations@;
        let a = activation_sim(level_of(acts, target) as int, level_of(acts, other) as int);
        assert(0 <= a <= ONE as int);
        let tn = g.neighbors_of(target);
        let on = g.neighbors_of(other);
        let shared = shared_neighbor_count(tn, on);
        let maxn = crate::fixed::max_int(tn.len() as int, on.len() as int);
        assert(0 <= shared <= tn.len() as int) by {
            tn.lemma_filter_len(|x: u128| on.contains(x));
            assert(tn.filter(|x: u128| on.contains(x)).len() >= 0);
        }
        let ts = structural_sim(shared, maxn);
        assert(0 <= ts <= ONE as int) by {
            if maxn > 0 {
                assert(0 <= shared * (ONE as int) / maxn <= ONE as int) by (nonlinear_arith)
                    requires
                        0 <= shared <= maxn,
                        maxn > 0,
                ;
            }
        }
        let cutoff = sat_sub(now_ms as int, RECENT_WINDOW_MS as int);
        let hist = self.neural_state.spike_history@;
        let c1 = recent_spike_count(hist, target, cutoff);
        let c2 = recent_spike_count(hist, other, cutoff);
        assert(c1 >= 0 && c2 >= 0) by {
            assert(hist.filter(
                |e: SpikeEvent| e.node_id == target && e.timestamp > cutoff,
            ).len() >= 0);
            assert(hist.filter(
                |e: SpikeEvent| e.node_id == other && e.timestamp > cutoff,
            ).len() >= 0);
        }
        let tt = temporal_sim(c1, c2);
        assert(0 <= tt <= ONE as int) by {
            if c1 > 0 && c2 > 0 {
                let lo = crate::fixed::min_int(c1, c2);
                let hi = crate::fixed::max_int(c1, c2);
                assert(0 <= lo * (ONE as int) / hi <= ONE as int) by (nonlinear_arith)
                    requires
                        0 < lo <= hi,
                ;
            }
        }
        assert(0 <= 4 * a + 4 * ts + 2 * tt <= 10 * (ONE as int));
        assert(0 <= trunc_div10(4 * a + 4 * ts + 2 * tt) <= ONE as int);
    }

    /// The complementarity score of an unordered pair: three tenths
    /// activation proximity (clipped at one) plus seven tenths bridge
    /// potential, one minus the Jaccard overlap of the two
    /// neighbourhoods.
    pub open spec fn complementarity_of(self, g: HyperGraph, n1: u128, n2: u128) -> int {
        let acts = self.neural_state.activations@;
        let ac = ONE as int - crate::fixed::min_int(
            ONE as int,
            crate::fixed::dist(level_of(acts, n1) as int, level_of(acts, n2) as int),
        );
        let nb1 = g.neighbors_of(n1);
        let nb2 = g.neighbors_of(n2);
        let shared = shared_neighbor_count(nb1, nb2);
        let total = nb1.len() + nb2.len() - shared;
        let bp = if total > 0 {
            ONE as int - shared * (ONE as int) / total
        } else {
            0
        };
        (3 * ac + 7 * bp) / 10
    }

    /// A complementarity score lies in `[0, ONE]`.
    pub proof fn lemma_complementarity_bounds(self, g: HyperGraph, n1: u128, n2: u128)
        requires
            self.wf(),
            g.wf(),
        ensures
            0 <= self.complementarity_of(g, n1, n2) <= ONE as int,
    {
        let acts = self.neural_state.activations@;
        let ac = ONE as int - crate::fixed::min_int(
            ONE as int,
            crate::fixed::dist(level_of(acts, n1) as int, level_of(acts, n2) as int),
        );
        assert(0 <= ac <= ONE as int);
        let nb1 = g.neighbors_of(n1);
        let nb2 = g.neighbors_of(n2);
        g.lemma_neighbors_of(n1);
        g.lemma_neighbors_of(n2);
        lemma_shared_bounds(nb1, nb2);
        let shared = shared_neighbor_count(nb1, nb2);
        let total = nb1.len() + nb2.len() - shared;
        if total > 0 {
            assert(0 <= shared * (ONE as int) / total <= ONE as int) by (nonlinear_arith)
                requires
                    0 <= shared <= total,
                    total > 0,
            ;
        }
        let bp = if total > 0 {
            ONE as int - shared * (ONE as int) / total
        } else {
            0
        };
        assert(0 <= bp <= ONE as int);
        assert(0 <= (3 * ac + 7 * bp) / 10 <= ONE as int);
    }

    /// Computes [`Self::complementarity_of`] for a pair of stored
    /// nodes.
    fn complementarity_exec(&self, graph: &HyperGraph, n1: u128, n2: u128) -> (r: u64)
        requires
            self.wf(),
            graph.wf(),
        ensures
            r == self.complementarity_of(*graph, n1, n2),
            r <= ONE,
    {
        proof {
            self.lemma_complementarity_bounds(*graph, n1, n2);
        }
        let a1 = get_level(&self.neural_state.activations, n1);
        let a2 = get_level(&self.neural_state.activations, n2);
        let gap = crate::fixed::min64(ONE, crate::fixed::dist64(a1, a2));
        let ac: u64 = ONE - gap;
        let nb1 = graph.get_neighbors(n1);
        let nb2 = graph.get_neighbors(n2);
        let shared = count_shared(&nb1, &nb2);
        proof {
            graph.lemma_neighbors_of(n1);
            graph.lemma_neighbors_of(n2);
            lemma_shared_bounds(nb1@, nb2@);
            lemma_neighbors_len_bound(*graph, n1);
            lemma_neighbors_len_bound(*graph, n2);
        }
        let total: usize = nb1.len() + nb2.len() - shared;
        let bp: u64 = if total > 0 {
            let q: u128 = (shared as u128) * (ONE as u128) / (total as u128);
            proof {
                assert((shared as int) * (ONE as int) / (total as int) <= ONE as int)
                    by (nonlinear_arith)
                    requires
                        0 <= shared as int <= total as int,
                        total as int > 0,
                ;
            }
            ONE - (q as u64)
        } else {
            0
        };
        (3 * ac + 7 * bp) / 10
    }

    /// The candidate match list: collects pairs of active nodes in
    /// upper-triangular order whose complementarity beats the
    /// threshold, stopping once `max_results` pairs are in hand; a
    /// pair naming a node the store lacks fails the whole pass.
    pub open spec fn gather_matches(
        self,
        g: HyperGraph,
        active: Seq<u128>,
        i: int,
        j: int,
        acc: Seq<(u128, u128, u64)>,
        max_results: usize,
    ) -> Result<Seq<(u128, u128, u64)>, GraphError>
        decreases active.len() + 1 - i, active.len() + 1 - j,
        when 0 <= i
    {
        if i >= active.len() {
            Ok(acc)
        } else if j >= active.len() {
            self.gather_matches(g, active, i + 1, i + 2, acc, max_results)
        } else if !g.has_node(active[i]) || !g.has_node(active[j]) {
            Err(GraphError::UnknownNode)
        } else {
            let c = self.complementarity_of(g, active[i], active[j]);
            let acc2 = if c > MATCH_THRESHOLD as int {
                acc.push((active[i], active[j], c as u64))
            } else {
                acc
            };
            if acc2.len() >= max_results {
                Ok(acc2)
            } else {
                self.gather_matches(g, active, i, j + 1, acc2, max_results)
            }
        }
    }

    /// The ids whose activation exceeds the matching floor, in entry
    /// order.
    pub open spec fn active_ids(self) -> Seq<u128> {
        self.neural_state.activations@.filter(
            |p: (u128, u64)| p.1 > MATCH_MIN_ACTIVATION,
        ).map_values(|p: (u128, u64)| p.0)
    }

    /// What `stable_matching` computes before ranking.
    pub open spec fn stable_matches(self, g: HyperGraph, max_results: usize) -> Result<
        Seq<(u128, u128, u64)>,
        GraphError,
    > {
        self.gather_matches(g, self.active_ids(), 0, 1, Seq::empty(), max_results)
    }

    /// Greedy pairing of active nodes: every qualifying pair in
    /// enumeration order up to `max_results`, then ranked by
    /// complementarity, highest first.
    pub fn stable_matching(&self, graph: &HyperGraph, max_results: usize) -> (r: Result<
        Vec<(u128, u128, u64)>,
        GraphError,
    >)
        requires
            self.wf(),
            graph.wf(),
        ensures
            match r {
                Ok(v) => {
                    &&& self.stable_matches(*graph, max_results) is Ok
                    &&& ({
                        let m = self.stable_matches(*graph, max_results)->Ok_0;
                        if max_results == 0 {
                            v@.len() == 0
                        } else {
                            v@.to_multiset() == m.to_multiset() && v@.len() == m.len()
                                && sorted3_desc(v@)
                        }
                    })
                },
                Err(e) => self.stable_matches(*graph, max_results) == Err::<
                    Seq<(u128, u128, u64)>,
                    GraphError,
                >(e),
            },
    {
        let ghost act_pred = |p: (u128, u64)| p.1 > MATCH_MIN_ACTIVATION;
        let ghost to_id = |p: (u128, u64)| p.0;
        let mut active: Vec<u128> = Vec::new();
        let mut w: usize = 0;
        while w < self.neural_state.activations.len()
            invariant
                w <= self.neural_state.activations@.len(),
                act_pred == (|p: (u128, u64)| p.1 > MATCH_MIN_ACTIVATION),
                to_id == (|p: (u128, u64)| p.0),
                active@ == self.neural_state.activations@.take(w as int).filter(
                    act_pred,
                ).map_values(to_id),
            decreases self.neural_state.activations@.len() - w,
        {
            let ghost prefix = self.neural_state.activations@.take(w as int);
            proof {
                assert(self.neural_state.activations@.take(w + 1).drop_last() =~= prefix);
                assert(self.neural_state.activations@.take(w + 1).last()
                    == self.neural_state.activations@[w as int]);
                reveal(Seq::filter);
            }
            let entry = self.neural_state.activations[w];
            if entry.1 > MATCH_MIN_ACTIVATION {
                active.push(entry.0);
                proof {
                    assert(self.neural_state.activations@.take(w + 1).filter(act_pred)
                        == prefix.filter(act_pred).push(
                        self.neural_state.activations@[w as int],
                    ));
                    assert(prefix.filter(act_pred).push(
                        self.neural_state.activations@[w as int],
                    ).map_values(to_id) =~= prefix.filter(act_pred).map_values(to_id).push(
                        self.neural_state.activations@[w as int].0,
                    ));
                }
            } else {
                proof {
                    assert(self.neural_state.activations@.take(w + 1).filter(act_pred)
                        == prefix.filter(act_pred));
                }
            }
            w += 1;
        }
        proof {
            assert(self.neural_state.activations@.take(
                self.neural_state.activations@.len() as int,
            ) =~= self.neural_state.activations@);
            assert(active@ == self.active_ids());
        }
        let len = active.len();
        let mut i: usize = 0;
        let mut j: usize = 1;
        let mut acc: Vec<(u128, u128, u64)> = Vec::new();
        loop
            invariant_except_break
                self.gather_matches(*graph, active@, i as int, j as int, acc@, max_results)
                    == self.stable_matches(*graph, max_results),
                acc@.len() < crate::fixed::max_int(max_results as int, 1),
            invariant
                self.wf(),
                graph.wf(),
                active@ == self.active_ids(),
                len == active@.len(),
                i <= len,
                j <= len + 1,
            ensures
                self.stable_matches(*graph, max_results) == Ok::<
                    Seq<(u128, u128, u64)>,
                    GraphError,
                >(acc@),
                acc@.len() <= crate::fixed::max_int(max_results as int, 1),
            decreases len + 1 - i, len + 1 - j,
        {
            if i >= len {
                proof {
                    assert(self.gather_matches(
                        *graph,
                        active@,
                        i as int,
                        j as int,
                        acc@,
                        max_results,
                    ) == Ok::<Seq<(u128, u128, u64)>, GraphError>(acc@));
                }
                break ;
            } else if j >= len {
                proof {
                    assert(self.gather_matches(
                        *graph,
                        active@,
                        i as int,
                        j as int,
                        acc@,
                        max_results,
                    ) == self.gather_matches(
                        *graph,
                        active@,
                        i + 1 as int,
                        i + 2 as int,
                        acc@,
                        max_results,
                    ));
                }
                i += 1;
                if i < len {
                    j = i + 1;
                } else {
                    j = len;
                    proof {
                        assert(self.gather_matches(
                            *graph,
                            active@,
                            i as int,
                            j as int,
                            acc@,
                            max_results,
                        ) == Ok::<Seq<(u128, u128, u64)>, GraphError>(acc@));
                        assert(self.gather_matches(
                            *graph,
                            active@,
                            i as int,
                            i + 1 as int,
                            acc@,
                            max_results,
                        ) == Ok::<Seq<(u128, u128, u64)>, GraphError>(acc@));
                    }
                }
            } else {
                let ni = active[i];
                let nj = active[j];
                if graph.get_node(ni).is_none() || graph.get_node(nj).is_none() {
                    proof {
                        assert(self.gather_matches(
                            *graph,
                            active@,
                            i as int,
                            j as int,
                            acc@,
                            max_results,
                        ) == Err::<Seq<(u128, u128, u64)>, GraphError>(GraphError::UnknownNode));
                    }
                    return Err(GraphError::UnknownNode);
                }
                let c = self.complementarity_exec(graph, ni, nj);
                let ghost acc_before = acc@;
                if c > MATCH_THRESHOLD {
                    acc.push((ni, nj, c));
                    proof {
                        assert(c as int == self.complementarity_of(*graph, ni, nj));
                        assert(acc@ == acc_before.push(
                            (ni, nj, self.complementarity_of(*graph, ni, nj) as u64),
                        ));
                    }
                }
                if acc.len() >= max_results {
                    proof {
                        assert(self.gather_matches(
                            *graph,
                            active@,
                            i as int,
                            j as int,
                            acc_before,
                            max_results,
                        ) == Ok::<Seq<(u128, u128, u64)>, GraphError>(acc@));
                    }
                    break ;
                }
                proof {
                    assert(self.gather_matches(
                        *graph,
                        active@,
                        i as int,
                        j as int,
                        acc_before,
                        max_results,
                    ) == self.gather_matches(
                        *graph,
                        active@,
                        i as int,
                        j + 1 as int,
                        acc@,
                        max_results,
                    ));
                }
                j += 1;
            }
        }
        let mut sorted = sort_triples_desc(acc);
        if sorted.len() > max_results {
            sorted.truncate(max_results);
        }
        proof {
            if max_results > 0 {
                assert(sorted@.len() <= max_results);
            } else {
                assert(sorted@.len() == 0);
            }
        }
        Ok(sorted)
    }

    /// The activation sum over the engine's entries.
    pub open spec fn acts_sum(s: Seq<(u128, u64)>) -> int
        decreases s.len(),
    {
        if s.len() == 0 {
            0
        } else {
            Self::acts_sum(s.drop_last()) + s.last().1
        }
    }

    /// Totals, the count of nodes above the active level, and the mean
    /// activation (zero when no node has an entry).
    pub fn stats(&self) -> (r: NeuralStats)
        requires
            self.wf(),
        ensures
            r.total_spikes == self.neural_state.total_spikes,
            r.active_neurons == self.neural_state.activations@.filter(
                |p: (u128, u64)| p.1 > ACTIVE_LEVEL,
            ).len(),
            r.average_activation == if self.neural_state.activations@.len() == 0 {
                0int
            } else {
                Self::acts_sum(self.neural_state.activations@) / (
                self.neural_state.activations@.len() as int)
            },
            r.processing_cycles == self.neural_state.processing_cycles,
    {
        let ghost acts = self.neural_state.activations@;
        let ghost active_pred = |p: (u128, u64)| p.1 > ACTIVE_LEVEL;
        let mut active: usize = 0;
        let mut sum: u128 = 0;
        let mut i: usize = 0;
        while i < self.neural_state.activations.len()
            invariant
                self.wf(),
                acts == self.neural_state.activations@,
                i <= acts.len(),
                active_pred == (|p: (u128, u64)| p.1 > ACTIVE_LEVEL),
                active == acts.take(i as int).filter(active_pred).len(),
                active <= i,
                sum == Self::acts_sum(acts.take(i as int)),
                sum <= (i as int) * (MAX_LEVEL as int),
            decreases acts.len() - i,
        {
            proof {
                assert(acts.take(i + 1).drop_last() =~= acts.take(i as int));
                assert(acts.take(i + 1).last() == acts[i as int]);
                reveal(Seq::filter);
                assert(acts[i as int].1 <= MAX_LEVEL);
                assert((i as int) * (MAX_LEVEL as int) + (MAX_LEVEL as int) == (i + 1) * (
                MAX_LEVEL as int)) by (nonlinear_arith);
            }
            let entry = self.neural_state.activations[i];
            if entry.1 > ACTIVE_LEVEL {
                active += 1;
            }
            sum = sum + (entry.1 as u128);
            i += 1;
        }
        proof {
            assert(acts.take(acts.len() as int) =~= acts);
        }
        let count = self.neural_state.activations.len();
        let average_activation: u64 = if count == 0 {
            0
        } else {
            let avg: u128 = sum / (count as u128);
            proof {
                let s = Self::acts_sum(acts) as int;
                assert(s / (count as int) <= MAX_LEVEL as int) by (nonlinear_arith)
                    requires
                        count >= 1,
                        0 <= s,
                        s <= (count as int) * (MAX_LEVEL as int),
                ;
            }
            avg as u64
        };
        NeuralStats {
            total_spikes: self.neural_state.total_spikes,
            active_neurons: active,
            average_activation,
            processing_cycles: self.neural_state.processing_cycles,
        }
    }
}

} // verus!
