//! What holds of every well-formed network and of its canonical forms.

use crate::network::gates::{GateKind, GateView};
use crate::network::model::{
    kept_origin, lemma_cleaned_wf, lemma_forwarded_wf, lemma_kept_upto, lemma_rank_monotone, valid_gate,
    valid_signal, NetworkView,
};
use crate::network::signal::{Signal, Source};
use vstd::prelude::*;

verus! {

/// Acyclicity: in a well-formed network every fanin of node `i` is a
/// constant, an existing input, or a node below `i`.
pub proof fn lemma_acyclic(net: NetworkView, i: int, k: int)
    requires
        net.wf(),
        0 <= i < net.nodes.len(),
        0 <= k < net.nodes[i].deps.len(),
    ensures
        match net.nodes[i].deps[k].source {
            Source::Constant => true,
            Source::Input(p) => p < net.nb_inputs,
            Source::Node(j) => j < i,
        },
{
    assert(valid_gate(net.nodes[i], net.nb_inputs, i));
    assert(valid_signal(net.nodes[i].deps[k], net.nb_inputs, i));
}

/// Between two indices there are no more live nodes than nodes.
pub proof fn lemma_rank_gap(net: NetworkView, a: int, b: int)
    requires
        0 <= a <= b,
    ensures
        net.rank(b) - net.rank(a) <= b - a,
    decreases b,
{
    if a < b {
        lemma_rank_gap(net, a, b - 1);
    }
}

/// A network with a dead node loses at least that node when the dead nodes
/// are dropped.
pub proof fn lemma_dead_node_shrinks(net: NetworkView, i: int)
    requires
        net.wf(),
        0 <= i < net.nodes.len(),
        !net.live(i),
    ensures
        net.cleaned().nodes.len() < net.nodes.len(),
{
    lemma_cleaned_wf(net);
    lemma_rank_monotone(net, 0, i);
    lemma_rank_gap(net, i + 1, net.nodes.len() as int);
    assert(net.rank(i + 1) == net.rank(i));
}

/// Turning a node into a buffer and then bringing the network into
/// canonical form leaves a well-formed network with fewer nodes: the
/// buffer at least is gone.
pub proof fn lemma_substitute_then_canonical_shrinks(net: NetworkView, node: int, new_signal: Signal)
    requires
        net.wf(),
        0 <= node < net.nodes.len(),
        valid_signal(new_signal, net.nb_inputs, node),
    ensures
        ({
            let substituted = NetworkView {
                nodes: net.nodes.update(node, GateView { kind: GateKind::Buf, deps: seq![new_signal] }),
                ..net
            };
            &&& substituted.wf()
            &&& substituted.canonical().wf()
            &&& substituted.canonical().nodes.len() < net.nodes.len()
        }),
{
    let substituted = NetworkView {
        nodes: net.nodes.update(node, GateView { kind: GateKind::Buf, deps: seq![new_signal] }),
        ..net
    };
    assert forall|i: int| 0 <= i < substituted.nodes.len() implies valid_gate(
        #[trigger] substituted.nodes[i],
        substituted.nb_inputs,
        i,
    ) by {
        assert(valid_gate(net.nodes[i], net.nb_inputs, i));
    }
    assert forall|k: int| 0 <= k < substituted.outputs.len() implies valid_signal(
        #[trigger] substituted.outputs[k],
        substituted.nb_inputs,
        substituted.nodes.len() as int,
    ) by {
        assert(valid_signal(net.outputs[k], net.nb_inputs, net.nodes.len() as int));
    }
    lemma_forwarded_wf(substituted);
    let f = substituted.forwarded();
    assert(f.nodes[node].kind is Buf);
    lemma_dead_node_shrinks(f, node);
    lemma_cleaned_wf(f);
}

/// Dropping the dead nodes never adds a node, and neither does bringing
/// the network into canonical form.
pub proof fn lemma_canonical_never_grows(net: NetworkView)
    requires
        net.wf(),
    ensures
        net.cleaned().nodes.len() <= net.nodes.len(),
        net.canonical().nodes.len() <= net.nodes.len(),
{
    lemma_cleaned_wf(net);
    lemma_forwarded_wf(net);
    lemma_cleaned_wf(net.forwarded());
}

/// Every live node stays live, at its rank, when the dead nodes are
/// dropped.
pub proof fn lemma_live_survives(net: NetworkView, i: int)
    requires
        net.wf(),
        net.live(i),
    ensures
        net.cleaned().live(net.rank(i) as int),
    decreases net.nodes.len() - i,
{
    let n = net.nodes.len() as int;
    let c = net.cleaned();
    let src = Source::Node(i as u32);
    let x = net.rank(i) as int;
    lemma_cleaned_wf(net);
    lemma_kept_upto(net, n);
    lemma_rank_monotone(net, i, n);
    if net.is_output(src) {
        let k = choose|k: int| 0 <= k < net.outputs.len() && #[trigger] net.outputs[k].source == src;
        assert(c.outputs[k].source == Source::Node(x as u32));
        assert(c.is_output(Source::Node(x as u32)));
    } else {
        let r = choose|r: int| i < r < net.nodes.len() && #[trigger] net.reads(r, src) && net.live(r);
        lemma_live_survives(net, r);
        let k = choose|k: int| 0 <= k < net.nodes[r].deps.len() && #[trigger] net.nodes[r].deps[k].source == src;
        let y = net.rank(r) as int;
        lemma_rank_monotone(net, i, r);
        lemma_rank_monotone(net, r, n);
        assert(c.nodes[y] == net.renumbered_gate(net.nodes[r]));
        assert(c.nodes[y].deps[k].source == Source::Node(x as u32));
        assert(c.reads(y, Source::Node(x as u32)));
    }
}

/// In a network where every node is live, every node is its own rank.
pub proof fn lemma_rank_of_all_live(net: NetworkView, m: int)
    requires
        forall|i: int| 0 <= i < net.nodes.len() ==> net.live(i),
        0 <= m <= net.nodes.len(),
    ensures
        net.rank(m) == m,
    decreases m,
{
    if m > 0 {
        lemma_rank_of_all_live(net, m - 1);
    }
}

/// In a well-formed network where every node is live, the kept nodes are
/// the nodes.
pub proof fn lemma_kept_of_all_live(net: NetworkView, m: int)
    requires
        net.wf(),
        forall|i: int| 0 <= i < net.nodes.len() ==> net.live(i),
        0 <= m <= net.nodes.len(),
    ensures
        net.kept_upto(m) == net.nodes.take(m),
    decreases m,
{
    if m > 0 {
        lemma_kept_of_all_live(net, m - 1);
        let g = net.nodes[m - 1];
        assert(valid_gate(g, net.nb_inputs, m - 1));
        assert forall|k: int| 0 <= k < g.deps.len() implies net.renumbered(g.deps[k]) == g.deps[k] by {
            assert(valid_signal(g.deps[k], net.nb_inputs, m - 1));
            if let Source::Node(j) = g.deps[k].source {
                lemma_rank_of_all_live(net, j as int);
            }
        }
        assert(net.renumbered_gate(g).deps =~= g.deps);
        assert(net.kept_upto(m) =~= net.nodes.take(m));
    } else {
        assert(net.kept_upto(m) =~= net.nodes.take(m));
    }
}

/// Dropping the dead nodes of a well-formed network in which every node is
/// live changes nothing.
pub proof fn lemma_cleaned_of_all_live(net: NetworkView)
    requires
        net.wf(),
        forall|i: int| 0 <= i < net.nodes.len() ==> net.live(i),
    ensures
        net.cleaned() == net,
{
    let n = net.nodes.len() as int;
    lemma_kept_of_all_live(net, n);
    assert(net.nodes.take(n) =~= net.nodes);
    assert forall|k: int| 0 <= k < net.outputs.len() implies net.renumbered(net.outputs[k]) == net.outputs[k] by {
        assert(valid_signal(net.outputs[k], net.nb_inputs, n));
        if let Source::Node(j) = net.outputs[k].source {
            lemma_rank_of_all_live(net, j as int);
        }
    }
    assert(net.cleaned().outputs =~= net.outputs);
}

/// After the dead nodes are dropped every node is live.
pub proof fn lemma_cleaned_all_live(net: NetworkView)
    requires
        net.wf(),
    ensures
        forall|x: int| 0 <= x < net.cleaned().nodes.len() ==> net.cleaned().live(x),
{
    let n = net.nodes.len() as int;
    lemma_cleaned_wf(net);
    lemma_kept_upto(net, n);
    assert forall|x: int| 0 <= x < net.cleaned().nodes.len() implies net.cleaned().live(x) by {
        let i = kept_origin(net, x, n);
        lemma_live_survives(net, i);
    }
}

/// Idempotence of `cleanup`: a second pass changes nothing.
pub proof fn lemma_cleanup_idempotent(net: NetworkView)
    requires
        net.wf(),
    ensures
        net.cleaned().cleaned() == net.cleaned(),
{
    lemma_cleaned_wf(net);
    lemma_cleaned_all_live(net);
    lemma_cleaned_of_all_live(net.cleaned());
}

/// Resolving through the buffers of a network that has none changes no
/// signal.
pub proof fn lemma_forwarded_without_buffers(net: NetworkView)
    requires
        forall|i: int| 0 <= i < net.nodes.len() ==> !((#[trigger] net.nodes[i]).kind is Buf),
    ensures
        net.forwarded() == net,
{
    let f = net.forwarded();
    assert forall|s: Signal| net.resolve(s) == s by {
        if let Source::Node(j) = s.source {
            if j < net.nodes.len() {
                assert(!(net.nodes[j as int].kind is Buf));
            }
        }
    }
    assert forall|i: int| 0 <= i < net.nodes.len() implies f.nodes[i] == net.nodes[i] by {
        assert(f.nodes[i].deps =~= net.nodes[i].deps);
    }
    assert(f.nodes =~= net.nodes);
    assert(f.outputs =~= net.outputs);
}

/// The canonical form of a well-formed network holds no buffer.
pub proof fn lemma_canonical_has_no_buffer(net: NetworkView)
    requires
        net.wf(),
    ensures
        forall|x: int|
            0 <= x < net.canonical().nodes.len() ==> !((#[trigger] net.canonical().nodes[x]).kind is Buf),
{
    let f = net.forwarded();
    let n = f.nodes.len() as int;
    lemma_forwarded_wf(net);
    lemma_cleaned_wf(f);
    lemma_kept_upto(f, n);
    assert forall|x: int| 0 <= x < net.canonical().nodes.len() implies !((#[trigger] net.canonical().nodes[x]).kind
        is Buf) by {
        let i = kept_origin(f, x, n);
        assert(f.live(i));
        assert(net.canonical().nodes[x] == f.renumbered_gate(f.nodes[i]));
        assert(!(f.nodes[i].kind is Buf));
    }
}

/// Idempotence of `make_canonical`: a second pass changes nothing, and
/// neither does a `cleanup` after it.
pub proof fn lemma_canonical_idempotent(net: NetworkView)
    requires
        net.wf(),
    ensures
        net.canonical().canonical() == net.canonical(),
        net.canonical().cleaned() == net.canonical(),
{
    lemma_forwarded_wf(net);
    lemma_canonical_has_no_buffer(net);
    lemma_forwarded_without_buffers(net.canonical());
    lemma_cleanup_idempotent(net.forwarded());
}

} // verus!
