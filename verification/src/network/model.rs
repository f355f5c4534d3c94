//! The network as a mathematical value, and what holds of a well-formed one.

use crate::network::gates::GateView;
use crate::network::signal::{Signal, Source};
use vstd::prelude::*;

verus! {

/// A signal that may be used where `nb_inputs` inputs exist and the nodes
/// below `bound` may be referred to.
pub open spec fn valid_signal(s: Signal, nb_inputs: nat, bound: int) -> bool {
    match s.source {
        Source::Constant => true,
        Source::Input(k) => k < nb_inputs,
        Source::Node(j) => j < bound,
    }
}

/// A well-formed gate all of whose fanins are valid below `bound`.
pub open spec fn valid_gate(g: GateView, nb_inputs: nat, bound: int) -> bool {
    &&& g.wf()
    &&& forall|k: int| 0 <= k < g.deps.len() ==> valid_signal(#[trigger] g.deps[k], nb_inputs, bound)
}

/// A network as a value: the input count, the gates in node order, and the
/// output signals in order.
pub struct NetworkView {
    pub nb_inputs: nat,
    pub nodes: Seq<GateView>,
    pub outputs: Seq<Signal>,
}

impl NetworkView {
    /// The network is acyclic and closed: node `i` reads only constants,
    /// existing inputs and nodes below `i`; outputs read only constants,
    /// existing inputs and existing nodes. Indices fit in 32 bits.
    pub open spec fn wf(self) -> bool {
        &&& self.nb_inputs <= u32::MAX
        &&& self.nodes.len() <= u32::MAX
        &&& forall|i: int|
            0 <= i < self.nodes.len() ==> valid_gate(#[trigger] self.nodes[i], self.nb_inputs, i)
        &&& forall|k: int|
            0 <= k < self.outputs.len() ==> valid_signal(
                #[trigger] self.outputs[k],
                self.nb_inputs,
                self.nodes.len() as int,
            )
    }

    /// Node `j` reads `src` through at least one of its fanins.
    pub open spec fn reads(self, j: int, src: Source) -> bool {
        exists|k: int| 0 <= k < self.nodes[j].deps.len() && #[trigger] self.nodes[j].deps[k].source == src
    }

    /// Some output refers to `src`.
    pub open spec fn is_output(self, src: Source) -> bool {
        exists|k: int| 0 <= k < self.outputs.len() && #[trigger] self.outputs[k].source == src
    }

    /// Node `i` is an output, or a fanin of a live node: it lies in the
    /// transitive fanin of the outputs.
    pub open spec fn live(self, i: int) -> bool
        decreases self.nodes.len() - i,
    {
        &&& 0 <= i < self.nodes.len()
        &&& (self.is_output(Source::Node(i as u32)) || exists|j: int|
            i < j < self.nodes.len() && #[trigger] self.reads(j, Source::Node(i as u32)) && self.live(j))
    }

    /// Node `i` reads an input, or a driven node: it lies in the transitive
    /// fanout of the primary inputs.
    pub open spec fn driven(self, i: int) -> bool
        decreases i,
    {
        &&& 0 <= i < self.nodes.len()
        &&& exists|k: int|
            0 <= k < self.nodes[i].deps.len() && match (#[trigger] self.nodes[i].deps[k]).source {
                Source::Constant => false,
                Source::Input(_) => true,
                Source::Node(j) => j < i && self.driven(j as int),
            }
    }

    /// Node `to` lies in the transitive fanin of node `from`, which
    /// includes `from` itself.
    pub open spec fn reaches(self, from: int, to: int) -> bool
        decreases from,
    {
        &&& 0 <= from < self.nodes.len()
        &&& (from == to || exists|k: int|
            0 <= k < self.nodes[from].deps.len() && match (#[trigger] self.nodes[from].deps[k]).source {
                Source::Node(d) => d < from && self.reaches(d as int, to),
                _ => false,
            })
    }

    /// Node `j` lies in the transitive fanout of `src`.
    pub open spec fn feeds(self, src: Source, j: int) -> bool
        decreases j,
    {
        &&& 0 <= j < self.nodes.len()
        &&& (self.reads(j, src) || exists|d: int|
            0 <= d < j && #[trigger] self.reads(j, Source::Node(d as u32)) && self.feeds(src, d))
    }

    /// Node `j` is an output, or a fanin of a live node at or above `c`.
    pub open spec fn live_from(self, j: int, c: int) -> bool {
        &&& 0 <= j < self.nodes.len()
        &&& (self.is_output(Source::Node(j as u32)) || exists|r: int|
            c <= r && j < r < self.nodes.len() && #[trigger] self.reads(r, Source::Node(j as u32)) && self.live(r))
    }

    /// The number of live nodes below `i`: the index that node `i` gets
    /// when the dead nodes are dropped.
    pub open spec fn rank(self, i: int) -> nat
        decreases i,
    {
        if i <= 0 {
            0
        } else if self.live(i - 1) {
            self.rank(i - 1) + 1
        } else {
            self.rank(i - 1)
        }
    }

    /// The signal after renumbering: a node signal refers to the rank of
    /// its node, any other signal is unchanged.
    pub open spec fn renumbered(self, s: Signal) -> Signal {
        match s.source {
            Source::Node(j) => Signal { source: Source::Node(self.rank(j as int) as u32), inverted: s.inverted },
            _ => s,
        }
    }

    /// A gate with every fanin renumbered.
    pub open spec fn renumbered_gate(self, g: GateView) -> GateView {
        GateView { kind: g.kind, deps: Seq::new(g.deps.len(), |k: int| self.renumbered(g.deps[k])) }
    }

    /// The live nodes below `m`, in order, renumbered.
    pub open spec fn kept_upto(self, m: int) -> Seq<GateView>
        decreases m,
    {
        if m <= 0 {
            Seq::empty()
        } else if self.live(m - 1) {
            self.kept_upto(m - 1).push(self.renumbered_gate(self.nodes[m - 1]))
        } else {
            self.kept_upto(m - 1)
        }
    }

    /// The network without its dead nodes: the live nodes keep their
    /// relative order, and every signal follows its node to its new index.
    pub open spec fn cleaned(self) -> NetworkView {
        NetworkView {
            nb_inputs: self.nb_inputs,
            nodes: self.kept_upto(self.nodes.len() as int),
            outputs: Seq::new(self.outputs.len(), |k: int| self.renumbered(self.outputs[k])),
        }
    }

    /// The signal that `s` stands for once buffers are seen through: the
    /// fanin of a buffer, resolved in turn, with the polarities composed.
    pub open spec fn resolve(self, s: Signal) -> Signal
        decreases signal_height(s),
    {
        match s.source {
            Source::Node(j) => if j < self.nodes.len() && self.nodes[j as int].kind is Buf
                && self.nodes[j as int].deps.len() == 1 && signal_height(self.nodes[j as int].deps[0])
                < signal_height(s) {
                self.resolve(self.nodes[j as int].deps[0]).spec_xor(s.inverted)
            } else {
                s
            },
            _ => s,
        }
    }

    /// The network with every signal resolved through the buffers.
    pub open spec fn forwarded(self) -> NetworkView {
        NetworkView {
            nb_inputs: self.nb_inputs,
            nodes: Seq::new(
                self.nodes.len(),
                |i: int|
                    GateView {
                        kind: self.nodes[i].kind,
                        deps: Seq::new(self.nodes[i].deps.len(), |k: int| self.resolve(self.nodes[i].deps[k])),
                    },
            ),
            outputs: Seq::new(self.outputs.len(), |k: int| self.resolve(self.outputs[k])),
        }
    }

    /// The canonical form: buffers are seen through, then what is left
    /// dead, the buffers among it, is dropped.
    pub open spec fn canonical(self) -> NetworkView {
        self.forwarded().cleaned()
    }
}

/// One more than the node index of a node signal, zero for other signals.
pub open spec fn signal_height(s: Signal) -> nat {
    match s.source {
        Source::Node(j) => (j + 1) as nat,
        _ => 0,
    }
}

/// A node is live exactly when it is an output or a fanin of a live node at
/// or above any point up to the node after it.
pub proof fn lemma_live_from(net: NetworkView, j: int, c: int)
    requires
        c <= j + 1,
    ensures
        net.live(j) == net.live_from(j, c),
{
    let src = Source::Node(j as u32);
    if net.live(j) && !net.is_output(src) {
        let r = choose|r: int| j < r < net.nodes.len() && #[trigger] net.reads(r, src) && net.live(r);
        assert(c <= r && net.reads(r, src));
    }
    if net.live_from(j, c) && !net.is_output(src) {
        let r = choose|r: int| c <= r && j < r < net.nodes.len() && #[trigger] net.reads(r, src) && net.live(r);
        assert(net.reads(r, src));
    }
}

/// Lowering the starting point by one node adds the fanins of that node, if
/// it is live.
pub proof fn lemma_live_from_step(net: NetworkView, j: int, i: int)
    requires
        net.wf(),
        0 <= i < net.nodes.len(),
        0 <= j < net.nodes.len(),
    ensures
        net.live_from(j, i) == (net.live_from(j, i + 1) || (net.live(i) && net.reads(i, Source::Node(j as u32)))),
{
    let src = Source::Node(j as u32);
    if net.reads(i, src) {
        let k = choose|k: int| 0 <= k < net.nodes[i].deps.len() && #[trigger] net.nodes[i].deps[k].source == src;
        assert(valid_signal(net.nodes[i].deps[k], net.nb_inputs, i));
    }
    if net.live_from(j, i) && !net.is_output(src) {
        let r = choose|r: int| i <= r && j < r < net.nodes.len() && #[trigger] net.reads(r, src) && net.live(r);
        if r != i {
            assert(i + 1 <= r && net.reads(r, src));
        }
    }
    if net.live_from(j, i + 1) && !net.is_output(src) {
        let r = choose|r: int| i + 1 <= r && j < r < net.nodes.len() && #[trigger] net.reads(r, src) && net.live(r);
        assert(i <= r && net.reads(r, src));
    }
}

/// Ranks grow with the index, and strictly across a live node.
pub proof fn lemma_rank_monotone(net: NetworkView, a: int, b: int)
    requires
        0 <= a <= b,
    ensures
        net.rank(a) <= net.rank(b),
        net.rank(b) <= b,
        a < b && net.live(a) ==> net.rank(a) < net.rank(b),
    decreases b,
{
    if a < b {
        lemma_rank_monotone(net, a, b - 1);
    } else if b > 0 {
        lemma_rank_monotone(net, b - 1, b - 1);
    }
}

/// The kept nodes below `m` are as many as the rank of `m`; the live node
/// `i` stands at its rank, renumbered; and every kept node is such a one.
pub proof fn lemma_kept_upto(net: NetworkView, m: int)
    requires
        0 <= m <= net.nodes.len(),
    ensures
        net.kept_upto(m).len() == net.rank(m),
        forall|i: int|
            0 <= i < m && #[trigger] net.live(i) ==> net.rank(i) < net.rank(m) && net.kept_upto(m)[net.rank(i) as int]
                == net.renumbered_gate(net.nodes[i]),
        forall|x: int|
            0 <= x < net.rank(m) ==> 0 <= kept_origin(net, x, m) < m && net.live(kept_origin(net, x, m)) && net.rank(
                kept_origin(net, x, m),
            ) == x,
    decreases m,
{
    if m > 0 {
        lemma_kept_upto(net, m - 1);
        assert forall|i: int| 0 <= i < m && #[trigger] net.live(i) implies net.rank(i) < net.rank(m) && net.kept_upto(
            m,
        )[net.rank(i) as int] == net.renumbered_gate(net.nodes[i]) by {
            lemma_rank_monotone(net, i, m);
        }
        assert forall|x: int| 0 <= x < net.rank(m) implies 0 <= kept_origin(net, x, m) < m && net.live(
            kept_origin(net, x, m),
        ) && net.rank(kept_origin(net, x, m)) == x by {
            if x < net.rank(m - 1) {
                assert(kept_origin(net, x, m - 1) == kept_origin(net, x, m));
            }
        }
    }
}

/// The node below `m` that ends up at index `x` when the dead nodes are
/// dropped.
pub open spec fn kept_origin(net: NetworkView, x: int, m: int) -> int
    decreases m,
{
    if m <= 0 {
        0
    } else if x < net.rank(m - 1) {
        kept_origin(net, x, m - 1)
    } else {
        m - 1
    }
}

/// Dropping the dead nodes of a well-formed network leaves a well-formed
/// network with no more nodes than before.
pub proof fn lemma_cleaned_wf(net: NetworkView)
    requires
        net.wf(),
    ensures
        net.cleaned().wf(),
        net.cleaned().nodes.len() == net.rank(net.nodes.len() as int),
        net.cleaned().nodes.len() <= net.nodes.len(),
{
    let n = net.nodes.len() as int;
    let c = net.cleaned();
    lemma_kept_upto(net, n);
    lemma_rank_monotone(net, 0, n);
    assert forall|x: int| 0 <= x < c.nodes.len() implies valid_gate(#[trigger] c.nodes[x], c.nb_inputs, x) by {
        let i = kept_origin(net, x, n);
        assert(net.live(i));
        assert(c.nodes[x] == net.renumbered_gate(net.nodes[i]));
        assert(valid_gate(net.nodes[i], net.nb_inputs, i));
        assert forall|k: int| 0 <= k < c.nodes[x].deps.len() implies valid_signal(
            #[trigger] c.nodes[x].deps[k],
            c.nb_inputs,
            x,
        ) by {
            let s = net.nodes[i].deps[k];
            assert(valid_signal(s, net.nb_inputs, i));
            if let Source::Node(j) = s.source {
                assert(net.reads(i, Source::Node(j)));
                assert(net.live(j as int));
                lemma_rank_monotone(net, j as int, i);
                lemma_rank_monotone(net, i, n);
            }
        }
    }
    assert forall|k: int| 0 <= k < c.outputs.len() implies valid_signal(
        #[trigger] c.outputs[k],
        c.nb_inputs,
        c.nodes.len() as int,
    ) by {
        let s = net.outputs[k];
        assert(valid_signal(s, net.nb_inputs, n));
        if let Source::Node(j) = s.source {
            assert(net.is_output(Source::Node(j)));
            assert(net.live(j as int));
            lemma_rank_monotone(net, j as int, n);
        }
    }
}

/// Resolving a signal is resolving its non-inverted form and then applying
/// its polarity.
pub proof fn lemma_resolve_polarity(net: NetworkView, s: Signal)
    ensures
        net.resolve(s) == net.resolve(Signal { source: s.source, inverted: false }).spec_xor(s.inverted),
{
    let plain = Signal { source: s.source, inverted: false };
    assert(signal_height(plain) == signal_height(s));
    match s.source {
        Source::Node(j) => {
            if j < net.nodes.len() && net.nodes[j as int].kind is Buf && net.nodes[j as int].deps.len() == 1
                && signal_height(net.nodes[j as int].deps[0]) < signal_height(s) {
                let t = net.resolve(net.nodes[j as int].deps[0]);
                assert(net.resolve(plain) == t.spec_xor(false));
                assert(t.spec_xor(false) == t);
            } else {
                assert(net.resolve(plain) == plain);
            }
        },
        _ => {},
    }
}

/// Resolving a valid signal gives a valid signal that refers to no buffer
/// and to no node above the one that the signal referred to.
pub proof fn lemma_resolve_valid(net: NetworkView, s: Signal, bound: int)
    requires
        net.wf(),
        valid_signal(s, net.nb_inputs, bound),
        bound <= net.nodes.len(),
    ensures
        valid_signal(net.resolve(s), net.nb_inputs, bound),
        signal_height(net.resolve(s)) <= signal_height(s),
        net.resolve(s).source is Node ==> !(net.nodes[net.resolve(s).source->Node_0 as int].kind is Buf),
    decreases signal_height(s),
{
    match s.source {
        Source::Node(j) => {
            assert(valid_gate(net.nodes[j as int], net.nb_inputs, j as int));
            if net.nodes[j as int].kind is Buf {
                let t = net.nodes[j as int].deps[0];
                assert(valid_signal(t, net.nb_inputs, j as int));
                lemma_resolve_valid(net, t, j as int);
            }
        },
        _ => {},
    }
}

/// Seeing through the buffers of a well-formed network leaves a
/// well-formed network of the same size in which nothing reads a buffer.
pub proof fn lemma_forwarded_wf(net: NetworkView)
    requires
        net.wf(),
    ensures
        net.forwarded().wf(),
        net.forwarded().nodes.len() == net.nodes.len(),
        forall|i: int|
            0 <= i < net.nodes.len() && (#[trigger] net.forwarded().nodes[i]).kind is Buf ==> !net.forwarded().live(i),
{
    let f = net.forwarded();
    assert forall|i: int| 0 <= i < f.nodes.len() implies valid_gate(#[trigger] f.nodes[i], f.nb_inputs, i) by {
        assert(valid_gate(net.nodes[i], net.nb_inputs, i));
        assert forall|k: int| 0 <= k < f.nodes[i].deps.len() implies valid_signal(
            #[trigger] f.nodes[i].deps[k],
            f.nb_inputs,
            i,
        ) by {
            assert(valid_signal(net.nodes[i].deps[k], net.nb_inputs, i));
            lemma_resolve_valid(net, net.nodes[i].deps[k], i);
        }
    }
    assert forall|k: int| 0 <= k < f.outputs.len() implies valid_signal(
        #[trigger] f.outputs[k],
        f.nb_inputs,
        f.nodes.len() as int,
    ) by {
        assert(valid_signal(net.outputs[k], net.nb_inputs, net.nodes.len() as int));
        lemma_resolve_valid(net, net.outputs[k], net.nodes.len() as int);
    }
    assert forall|i: int| 0 <= i < net.nodes.len() && (#[trigger] f.nodes[i]).kind is Buf implies !f.live(i) by {
        let src = Source::Node(i as u32);
        if f.is_output(src) {
            let k = choose|k: int| 0 <= k < f.outputs.len() && #[trigger] f.outputs[k].source == src;
            assert(valid_signal(net.outputs[k], net.nb_inputs, net.nodes.len() as int));
            lemma_resolve_valid(net, net.outputs[k], net.nodes.len() as int);
        }
        if exists|j: int| i < j < f.nodes.len() && #[trigger] f.reads(j, src) && f.live(j) {
            let j = choose|j: int| i < j < f.nodes.len() && #[trigger] f.reads(j, src) && f.live(j);
            let k = choose|k: int| 0 <= k < f.nodes[j].deps.len() && #[trigger] f.nodes[j].deps[k].source == src;
            assert(valid_gate(net.nodes[j], net.nb_inputs, j));
            assert(valid_signal(net.nodes[j].deps[k], net.nb_inputs, j));
            lemma_resolve_valid(net, net.nodes[j].deps[k], j);
        }
    }
}

/// What a live node reaches through its fanins is live.
pub proof fn lemma_reached_is_live(net: NetworkView, from: int, to: int)
    requires
        net.live(from),
        net.reaches(from, to),
    ensures
        net.live(to),
    decreases from,
{
    if from != to {
        let k = choose|k: int|
            0 <= k < net.nodes[from].deps.len() && match (#[trigger] net.nodes[from].deps[k]).source {
                Source::Node(d) => d < from && net.reaches(d as int, to),
                _ => false,
            };
        let d = net.nodes[from].deps[k].source->Node_0;
        assert(net.nodes[from].deps[k].source == Source::Node(d));
        assert(net.reads(from, Source::Node(d)));
        assert(net.live(d as int));
        lemma_reached_is_live(net, d as int, to);
    }
}

/// What a reader of `src` feeds, `src` feeds too.
pub proof fn lemma_feeds_through(net: NetworkView, src: Source, f: int, j: int)
    requires
        net.wf(),
        0 <= f < net.nodes.len(),
        net.reads(f, src),
        net.feeds(Source::Node(f as u32), j),
    ensures
        net.feeds(src, j),
        f < j,
    decreases j,
{
    let mid = Source::Node(f as u32);
    if net.reads(j, mid) {
        let k = choose|k: int| 0 <= k < net.nodes[j].deps.len() && #[trigger] net.nodes[j].deps[k].source == mid;
        assert(valid_gate(net.nodes[j], net.nb_inputs, j));
        assert(valid_signal(net.nodes[j].deps[k], net.nb_inputs, j));
        assert(net.feeds(src, f));
    } else {
        let d = choose|d: int| 0 <= d < j && #[trigger] net.reads(j, Source::Node(d as u32)) && net.feeds(mid, d);
        lemma_feeds_through(net, src, f, d);
        assert(net.reads(j, Source::Node(d as u32)));
    }
}

/// What an input or a driven node feeds is driven.
pub proof fn lemma_fed_is_driven(net: NetworkView, src: Source, j: int)
    requires
        net.wf(),
        match src {
            Source::Constant => false,
            Source::Input(_) => true,
            Source::Node(i) => net.driven(i as int),
        },
        net.feeds(src, j),
    ensures
        net.driven(j),
    decreases j,
{
    assert(valid_gate(net.nodes[j], net.nb_inputs, j));
    if net.reads(j, src) {
        let k = choose|k: int| 0 <= k < net.nodes[j].deps.len() && #[trigger] net.nodes[j].deps[k].source == src;
        assert(valid_signal(net.nodes[j].deps[k], net.nb_inputs, j));
    } else {
        let d = choose|d: int| 0 <= d < j && #[trigger] net.reads(j, Source::Node(d as u32)) && net.feeds(src, d);
        lemma_fed_is_driven(net, src, d);
        let k = choose|k: int|
            0 <= k < net.nodes[j].deps.len() && #[trigger] net.nodes[j].deps[k].source == Source::Node(d as u32);
        assert(valid_signal(net.nodes[j].deps[k], net.nb_inputs, j));
    }
}

} // verus!
