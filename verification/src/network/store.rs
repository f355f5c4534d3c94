//! The network: inputs, nodes and outputs, with append and in-place replace.

use crate::network::gates::{BinaryType, Gate, GateKind, GateView};
use crate::network::model::{
    lemma_cleaned_wf, lemma_forwarded_wf, lemma_live_from, lemma_live_from_step,
    lemma_resolve_polarity, valid_gate, valid_signal, NetworkView,
};
use crate::network::signal::{Signal, Source};
use vstd::prelude::*;

verus! {

/// A logic network. Node `i` is identified by its index for as long as the
/// network is not renumbered.
#[derive(Clone, Debug, PartialEq, Eq)]
pub struct Network {
    nb_inputs: usize,
    nodes: Vec<Gate>,
    outputs: Vec<Signal>,
}

/// The gates of a node vector as values.
pub open spec fn gate_views(nodes: Seq<Gate>) -> Seq<GateView> {
    Seq::new(nodes.len(), |i: int| nodes[i]@)
}

impl View for Network {
    type V = NetworkView;

    closed spec fn view(&self) -> NetworkView {
        NetworkView {
            nb_inputs: self.nb_inputs as nat,
            nodes: gate_views(self.nodes@),
            outputs: self.outputs@,
        }
    }
}

impl Default for Network {
    fn default() -> (n: Network)
        ensures
            n@ == (NetworkView { nb_inputs: 0, nodes: Seq::empty(), outputs: Seq::empty() }),
            n@.wf(),
    {
        Network::new()
    }
}

impl Network {
    /// The empty network.
    pub fn new() -> (n: Network)
        ensures
            n@ == (NetworkView { nb_inputs: 0, nodes: Seq::empty(), outputs: Seq::empty() }),
            n@.wf(),
    {
        let n = Network { nb_inputs: 0, nodes: Vec::new(), outputs: Vec::new() };
        assert(n@.nodes =~= Seq::empty());
        n
    }

    pub fn nb_inputs(&self) -> (n: usize)
        ensures
            n == self@.nb_inputs,
    {
        self.nb_inputs
    }

    pub fn nb_nodes(&self) -> (n: usize)
        ensures
            n == self@.nodes.len(),
    {
        self.nodes.len()
    }

    pub fn nb_outputs(&self) -> (n: usize)
        ensures
            n == self@.outputs.len(),
    {
        self.outputs.len()
    }

    /// Whether `s` may be used in this network: it is a constant, or
    /// refers to an existing input or an existing node.
    pub fn is_valid(&self, s: Signal) -> (b: bool)
        ensures
            b == valid_signal(s, self@.nb_inputs, self@.nodes.len() as int),
    {
        if s.is_input() {
            (s.input() as usize) < self.nb_inputs
        } else if s.is_var() {
            (s.var() as usize) < self.nodes.len()
        } else {
            true
        }
    }

    /// Whether `gate` may stand at node index `bound`: it is well formed
    /// and reads only constants, existing inputs and nodes below `bound`.
    pub fn accepts(&self, gate: &Gate, bound: usize) -> (b: bool)
        ensures
            b == valid_gate(gate@, self@.nb_inputs, bound as int),
    {
        if !gate.is_well_formed() {
            return false;
        }
        let deps = gate.dependencies();
        let mut k: usize = 0;
        while k < deps.len()
            invariant
                k <= deps.len(),
                deps@ == gate@.deps,
                forall|m: int| 0 <= m < k ==> valid_signal(#[trigger] gate@.deps[m], self@.nb_inputs, bound as int),
            decreases deps.len() - k,
        {
            let s = deps[k];
            let fits = if s.is_input() {
                (s.input() as usize) < self.nb_inputs
            } else if s.is_var() {
                (s.var() as usize) < bound
            } else {
                true
            };
            if !fits {
                assert(!valid_signal(gate@.deps[k as int], self@.nb_inputs, bound as int));
                return false;
            }
            k += 1;
        }
        true
    }

    /// Appends a primary input and returns its non-inverted signal.
    pub fn add_input(&mut self) -> (s: Signal)
        requires
            old(self)@.wf(),
            old(self)@.nb_inputs < u32::MAX,
        ensures
            final(self)@ == (NetworkView { nb_inputs: old(self)@.nb_inputs + 1, ..old(self)@ }),
            s == (Signal { source: Source::Input(old(self)@.nb_inputs as u32), inverted: false }),
            final(self)@.wf(),
    {
        let k = self.nb_inputs;
        self.nb_inputs = k + 1;
        assert(self@.nodes =~= old(self)@.nodes);
        Signal::from_input(k as u32)
    }

    /// Appends a node holding `gate` and returns its non-inverted signal.
    pub fn add(&mut self, gate: Gate) -> (s: Signal)
        requires
            old(self)@.wf(),
            old(self)@.nodes.len() < u32::MAX,
            valid_gate(gate@, old(self)@.nb_inputs, old(self)@.nodes.len() as int),
        ensures
            final(self)@ == (NetworkView { nodes: old(self)@.nodes.push(gate@), ..old(self)@ }),
            s == (Signal { source: Source::Node(old(self)@.nodes.len() as u32), inverted: false }),
            final(self)@.wf(),
    {
        let k = self.nodes.len();
        self.nodes.push(gate);
        assert(self@.nodes =~= old(self)@.nodes.push(gate@));
        Signal::from_var(k as u32)
    }

    /// Appends a two-input And node over `a` and `b`.
    pub fn and(&mut self, a: Signal, b: Signal) -> (s: Signal)
        requires
            old(self)@.wf(),
            old(self)@.nodes.len() < u32::MAX,
            valid_signal(a, old(self)@.nb_inputs, old(self)@.nodes.len() as int),
            valid_signal(b, old(self)@.nb_inputs, old(self)@.nodes.len() as int),
        ensures
            final(self)@ == (NetworkView {
                nodes: old(self)@.nodes.push(
                    GateView { kind: GateKind::Binary(BinaryType::And), deps: seq![a, b] },
                ),
                ..old(self)@
            }),
            s == (Signal { source: Source::Node(old(self)@.nodes.len() as u32), inverted: false }),
            final(self)@.wf(),
    {
        self.add(Gate::and(a, b))
    }

    /// Appends `signal` to the outputs.
    pub fn add_output(&mut self, signal: Signal)
        requires
            old(self)@.wf(),
            valid_signal(signal, old(self)@.nb_inputs, old(self)@.nodes.len() as int),
        ensures
            final(self)@ == (NetworkView { outputs: old(self)@.outputs.push(signal), ..old(self)@ }),
            final(self)@.wf(),
    {
        self.outputs.push(signal);
        assert(self@.nodes =~= old(self)@.nodes);
    }

    /// What node `i` computes.
    pub fn gate(&self, i: usize) -> (g: &Gate)
        requires
            i < self@.nodes.len(),
        ensures
            g@ == self@.nodes[i as int],
    {
        &self.nodes[i]
    }

    /// The non-inverted signal of node `i`.
    pub fn node(&self, i: usize) -> (s: Signal)
        requires
            i < self@.nodes.len(),
            self@.wf(),
        ensures
            s == (Signal { source: Source::Node(i as u32), inverted: false }),
    {
        Signal::from_var(i as u32)
    }

    /// The non-inverted signal of primary input `i`.
    pub fn input(&self, i: usize) -> (s: Signal)
        requires
            i < self@.nb_inputs,
            self@.wf(),
        ensures
            s == (Signal { source: Source::Input(i as u32), inverted: false }),
    {
        Signal::from_input(i as u32)
    }

    /// The signal of output `i`.
    pub fn output(&self, i: usize) -> (s: Signal)
        requires
            i < self@.outputs.len(),
        ensures
            s == self@.outputs[i as int],
    {
        self.outputs[i]
    }

    /// Gives node `i` a new gate; the node keeps its index.
    pub fn replace(&mut self, i: usize, gate: Gate)
        requires
            old(self)@.wf(),
            i < old(self)@.nodes.len(),
            valid_gate(gate@, old(self)@.nb_inputs, i as int),
        ensures
            final(self)@ == (NetworkView { nodes: old(self)@.nodes.update(i as int, gate@), ..old(self)@ }),
            final(self)@.wf(),
    {
        self.nodes.set(i, gate);
        assert(self@.nodes =~= old(self)@.nodes.update(i as int, gate@));
    }

    /// For every node, whether it is live.
    fn live_marks(&self) -> (marks: Vec<bool>)
        requires
            self@.wf(),
        ensures
            marks@.len() == self@.nodes.len(),
            forall|j: int| 0 <= j < marks@.len() ==> marks@[j] == self@.live(j),
    {
        let ghost net = self@;
        let n = self.nodes.len();
        let mut marks: Vec<bool> = Vec::new();
        let mut i: usize = 0;
        while i < n
            invariant
                i <= n,
                marks@.len() == i,
                forall|j: int| 0 <= j < i ==> !marks@[j],
            decreases n - i,
        {
            marks.push(false);
            i += 1;
        }
        let mut po: usize = 0;
        while po < self.outputs.len()
            invariant
                net == self@,
                net.wf(),
                n == net.nodes.len(),
                po <= self.outputs@.len(),
                marks@.len() == n,
                forall|j: int|
                    0 <= j < n ==> marks@[j] == exists|k: int|
                        0 <= k < po && #[trigger] net.outputs[k].source == Source::Node(j as u32),
            decreases self.outputs@.len() - po,
        {
            let s = self.outputs[po];
            assert(valid_signal(net.outputs[po as int], net.nb_inputs, n as int));
            let ghost before = marks@;
            if s.is_var() {
                marks.set(s.var() as usize, true);
            }
            proof {
                assert forall|j: int| 0 <= j < n implies marks@[j] == exists|k: int|
                    0 <= k < po + 1 && #[trigger] net.outputs[k].source == Source::Node(j as u32) by {
                    let src = Source::Node(j as u32);
                    if before[j] {
                        let k = choose|k: int| 0 <= k < po && #[trigger] net.outputs[k].source == src;
                        assert(net.outputs[k].source == src);
                    }
                    if s.source == src {
                        assert(net.outputs[po as int].source == src);
                    }
                    if exists|k: int| 0 <= k < po + 1 && #[trigger] net.outputs[k].source == src {
                        let k = choose|k: int| 0 <= k < po + 1 && #[trigger] net.outputs[k].source == src;
                        if k < po {
                            assert(before[j]);
                        }
                    }
                }
            }
            po += 1;
        }
        proof {
            assert forall|j: int| 0 <= j < n implies marks@[j] == net.live_from(j, n as int) by {
                let src = Source::Node(j as u32);
                if marks@[j] {
                    let k = choose|k: int| 0 <= k < po && #[trigger] net.outputs[k].source == src;
                    assert(net.outputs[k].source == src);
                }
            }
        }
        let mut cur: usize = n;
        while cur > 0
            invariant
                net == self@,
                net.wf(),
                n == net.nodes.len(),
                cur <= n,
                marks@.len() == n,
                forall|j: int| 0 <= j < n ==> marks@[j] == net.live_from(j, cur as int),
            decreases cur,
        {
            let i = cur - 1;
            proof {
                lemma_live_from(net, i as int, cur as int);
            }
            if marks[i] {
                let deps = self.nodes[i].dependencies();
                let mut k: usize = 0;
                while k < deps.len()
                    invariant
                        net == self@,
                        net.wf(),
                        n == net.nodes.len(),
                        i < n,
                        k <= deps.len(),
                        deps@ == net.nodes[i as int].deps,
                        marks@.len() == n,
                        net.live(i as int),
                        forall|j: int|
                            0 <= j < n ==> marks@[j] == (net.live_from(j, i + 1) || exists|m: int|
                                0 <= m < k && #[trigger] deps@[m].source == Source::Node(j as u32)),
                    decreases deps.len() - k,
                {
                    let s = deps[k];
                    assert(valid_signal(net.nodes[i as int].deps[k as int], net.nb_inputs, i as int));
                    let ghost before = marks@;
                    if s.is_var() {
                        marks.set(s.var() as usize, true);
                    }
                    proof {
                        assert forall|j: int| 0 <= j < n implies marks@[j] == (net.live_from(j, i + 1) || exists|
                            m: int,
                        |
                            0 <= m < k + 1 && #[trigger] deps@[m].source == Source::Node(j as u32)) by {
                            let src = Source::Node(j as u32);
                            if exists|m: int| 0 <= m < k && #[trigger] deps@[m].source == src {
                                let m = choose|m: int| 0 <= m < k && #[trigger] deps@[m].source == src;
                                assert(deps@[m].source == src);
                            }
                            if s.source == src {
                                assert(deps@[k as int].source == src);
                            }
                            if exists|m: int| 0 <= m < k + 1 && #[trigger] deps@[m].source == src {
                                let m = choose|m: int| 0 <= m < k + 1 && #[trigger] deps@[m].source == src;
                                if m < k {
                                    assert(deps@[m].source == src);
                                }
                            }
                        }
                    }
                    k += 1;
                }
                proof {
                    assert forall|j: int| 0 <= j < n implies marks@[j] == net.live_from(j, i as int) by {
                        let src = Source::Node(j as u32);
                        lemma_live_from_step(net, j, i as int);
                        if net.reads(i as int, src) {
                            let m = choose|m: int|
                                0 <= m < net.nodes[i as int].deps.len() && #[trigger] net.nodes[i as int].deps[m].source
                                    == src;
                            assert(deps@[m].source == src);
                        }
                        if exists|m: int| 0 <= m < k && #[trigger] deps@[m].source == src {
                            let m = choose|m: int| 0 <= m < k && #[trigger] deps@[m].source == src;
                            assert(net.nodes[i as int].deps[m].source == src);
                        }
                    }
                }
            } else {
                proof {
                    assert forall|j: int| 0 <= j < n implies marks@[j] == net.live_from(j, i as int) by {
                        lemma_live_from_step(net, j, i as int);
                    }
                }
            }
            cur -= 1;
        }
        proof {
            assert forall|j: int| 0 <= j < n implies marks@[j] == net.live(j) by {
                lemma_live_from(net, j, 0);
            }
        }
        marks
    }

    /// For every node, the index that it gets when the dead nodes are
    /// dropped.
    fn live_ranks(&self, marks: &Vec<bool>) -> (ranks: Vec<u32>)
        requires
            self@.wf(),
            marks@.len() == self@.nodes.len(),
            forall|j: int| 0 <= j < marks@.len() ==> marks@[j] == self@.live(j),
        ensures
            ranks@.len() == self@.nodes.len(),
            forall|j: int| 0 <= j < ranks@.len() ==> ranks@[j] == self@.rank(j),
    {
        let ghost net = self@;
        let n = self.nodes.len();
        let mut ranks: Vec<u32> = Vec::new();
        let mut next: u32 = 0;
        let mut i: usize = 0;
        while i < n
            invariant
                net == self@,
                n == net.nodes.len(),
                n <= u32::MAX,
                i <= n,
                marks@.len() == n,
                forall|j: int| 0 <= j < marks@.len() ==> marks@[j] == net.live(j),
                ranks@.len() == i,
                next == net.rank(i as int),
                next <= i,
                forall|j: int| 0 <= j < i ==> ranks@[j] == net.rank(j),
            decreases n - i,
        {
            ranks.push(next);
            if marks[i] {
                next += 1;
            }
            i += 1;
        }
        ranks
    }

    /// The signals of `deps`, each following its node to its new index.
    fn renumber(deps: &Vec<Signal>, ranks: &Vec<u32>, Ghost(net): Ghost<NetworkView>) -> (r: Vec<Signal>)
        requires
            ranks@.len() == net.nodes.len(),
            forall|j: int| 0 <= j < ranks@.len() ==> ranks@[j] == net.rank(j),
            forall|k: int|
                0 <= k < deps@.len() ==> valid_signal(#[trigger] deps@[k], net.nb_inputs, net.nodes.len() as int),
        ensures
            r@ == Seq::new(deps@.len(), |k: int| net.renumbered(deps@[k])),
    {
        let mut r: Vec<Signal> = Vec::new();
        let mut k: usize = 0;
        while k < deps.len()
            invariant
                k <= deps.len(),
                ranks@.len() == net.nodes.len(),
                forall|j: int| 0 <= j < ranks@.len() ==> ranks@[j] == net.rank(j),
                forall|k: int|
                    0 <= k < deps@.len() ==> valid_signal(#[trigger] deps@[k], net.nb_inputs, net.nodes.len() as int),
                r@.len() == k,
                forall|m: int| 0 <= m < k ==> r@[m] == net.renumbered(deps@[m]),
            decreases deps.len() - k,
        {
            let s = deps[k];
            assert(valid_signal(deps@[k as int], net.nb_inputs, net.nodes.len() as int));
            if s.is_var() {
                let t = Signal::from_var(ranks[s.var() as usize]).xor(s.is_inverted());
                r.push(t);
            } else {
                r.push(s);
            }
            k += 1;
        }
        assert(r@ =~= Seq::new(deps@.len(), |k: int| net.renumbered(deps@[k])));
        r
    }

    /// Drops every node that no output depends on. The nodes that stay
    /// keep their relative order and are renumbered from zero, and every
    /// signal of the network follows its node.
    pub fn cleanup(&mut self)
        requires
            old(self)@.wf(),
        ensures
            final(self)@ == old(self)@.cleaned(),
            final(self)@.wf(),
            final(self)@.nodes.len() <= old(self)@.nodes.len(),
    {
        let ghost net = self@;
        let marks = self.live_marks();
        let ranks = self.live_ranks(&marks);
        let n = self.nodes.len();
        let mut nodes: Vec<Gate> = Vec::new();
        let mut i: usize = 0;
        while i < n
            invariant
                net == self@,
                net.wf(),
                n == net.nodes.len(),
                i <= n,
                marks@.len() == n,
                forall|j: int| 0 <= j < marks@.len() ==> marks@[j] == net.live(j),
                ranks@.len() == n,
                forall|j: int| 0 <= j < ranks@.len() ==> ranks@[j] == net.rank(j),
                gate_views(nodes@) == net.kept_upto(i as int),
            decreases n - i,
        {
            if marks[i] {
                let g = &self.nodes[i];
                let deps = g.dependencies();
                proof {
                    assert(valid_gate(net.nodes[i as int], net.nb_inputs, i as int));
                    assert forall|k: int| 0 <= k < deps@.len() implies valid_signal(
                        #[trigger] deps@[k],
                        net.nb_inputs,
                        n as int,
                    ) by {
                        assert(valid_signal(net.nodes[i as int].deps[k], net.nb_inputs, i as int));
                    }
                }
                let renumbered = Self::renumber(&deps, &ranks, Ghost(net));
                let ghost before = gate_views(nodes@);
                let h = g.with_dependencies(&renumbered);
                nodes.push(h);
                assert(gate_views(nodes@) =~= before.push(net.renumbered_gate(net.nodes[i as int])));
            }
            i += 1;
        }
        proof {
            assert forall|k: int| 0 <= k < self.outputs@.len() implies valid_signal(
                #[trigger] self.outputs@[k],
                net.nb_inputs,
                n as int,
            ) by {
                assert(valid_signal(net.outputs[k], net.nb_inputs, n as int));
            }
        }
        let outputs = Self::renumber(&self.outputs, &ranks, Ghost(net));
        self.nodes = nodes;
        self.outputs = outputs;
        proof {
            lemma_cleaned_wf(net);
            assert(self@.outputs =~= net.cleaned().outputs);
        }
    }

    /// The signals of `deps`, each resolved through the buffers.
    fn resolve_all(deps: &Vec<Signal>, targets: &Vec<Signal>, Ghost(net): Ghost<NetworkView>) -> (r: Vec<Signal>)
        requires
            forall|j: int|
                0 <= j < targets@.len() ==> targets@[j] == net.resolve(
                    Signal { source: Source::Node(j as u32), inverted: false },
                ),
            forall|k: int|
                0 <= k < deps@.len() ==> valid_signal(#[trigger] deps@[k], net.nb_inputs, targets@.len() as int),
        ensures
            r@ == Seq::new(deps@.len(), |k: int| net.resolve(deps@[k])),
    {
        let mut r: Vec<Signal> = Vec::new();
        let mut k: usize = 0;
        while k < deps.len()
            invariant
                k <= deps.len(),
                forall|j: int|
                    0 <= j < targets@.len() ==> targets@[j] == net.resolve(
                        Signal { source: Source::Node(j as u32), inverted: false },
                    ),
                forall|k: int|
                    0 <= k < deps@.len() ==> valid_signal(#[trigger] deps@[k], net.nb_inputs, targets@.len() as int),
                r@.len() == k,
                forall|m: int| 0 <= m < k ==> r@[m] == net.resolve(deps@[m]),
            decreases deps.len() - k,
        {
            let s = deps[k];
            assert(valid_signal(deps@[k as int], net.nb_inputs, targets@.len() as int));
            proof {
                lemma_resolve_polarity(net, s);
            }
            if s.is_var() {
                let t = targets[s.var() as usize].xor(s.is_inverted());
                r.push(t);
            } else {
                r.push(s);
            }
            k += 1;
        }
        assert(r@ =~= Seq::new(deps@.len(), |k: int| net.resolve(deps@[k])));
        r
    }

    /// Repoints every signal that refers to a buffer to what the buffer
    /// forwards, composing the polarities. No node is dropped yet.
    fn forward(&mut self)
        requires
            old(self)@.wf(),
        ensures
            final(self)@ == old(self)@.forwarded(),
            final(self)@.wf(),
    {
        let ghost net = self@;
        let n = self.nodes.len();
        let mut targets: Vec<Signal> = Vec::new();
        let mut nodes: Vec<Gate> = Vec::new();
        let mut i: usize = 0;
        while i < n
            invariant
                net == self@,
                net.wf(),
                n == net.nodes.len(),
                i <= n,
                targets@.len() == i,
                nodes@.len() == i,
                forall|j: int|
                    0 <= j < i ==> targets@[j] == net.resolve(
                        Signal { source: Source::Node(j as u32), inverted: false },
                    ),
                forall|j: int| 0 <= j < i ==> (#[trigger] nodes@[j])@ == net.forwarded().nodes[j],
            decreases n - i,
        {
            let g = &self.nodes[i];
            let deps = g.dependencies();
            proof {
                assert(valid_gate(net.nodes[i as int], net.nb_inputs, i as int));
                assert forall|k: int| 0 <= k < deps@.len() implies valid_signal(
                    #[trigger] deps@[k],
                    net.nb_inputs,
                    i as int,
                ) by {
                    assert(valid_signal(net.nodes[i as int].deps[k], net.nb_inputs, i as int));
                }
            }
            let resolved = Self::resolve_all(&deps, &targets, Ghost(net));
            let h = g.with_dependencies(&resolved);
            assert(h@.deps =~= net.forwarded().nodes[i as int].deps);
            if g.is_buf() {
                proof {
                    assert(valid_signal(net.nodes[i as int].deps[0], net.nb_inputs, i as int));
                    lemma_resolve_polarity(net, net.nodes[i as int].deps[0]);
                    let t = net.resolve(net.nodes[i as int].deps[0]);
                    assert(t.spec_xor(false) == t);
                }
                targets.push(resolved[0]);
            } else {
                targets.push(Signal::from_var(i as u32));
            }
            nodes.push(h);
            i += 1;
        }
        proof {
            assert forall|k: int| 0 <= k < self.outputs@.len() implies valid_signal(
                #[trigger] self.outputs@[k],
                net.nb_inputs,
                n as int,
            ) by {
                assert(valid_signal(net.outputs[k], net.nb_inputs, n as int));
            }
        }
        let outputs = Self::resolve_all(&self.outputs, &targets, Ghost(net));
        self.nodes = nodes;
        self.outputs = outputs;
        proof {
            lemma_forwarded_wf(net);
            assert(self@.nodes =~= net.forwarded().nodes);
            assert(self@.outputs =~= net.forwarded().outputs);
        }
    }

    /// Brings the network into canonical form: every reference to a buffer
    /// is repointed to what the buffer forwards, with the polarities
    /// composed, and then every node that no output depends on, the
    /// buffers among them, is dropped as `cleanup` does.
    pub fn make_canonical(&mut self)
        requires
            old(self)@.wf(),
        ensures
            final(self)@ == old(self)@.canonical(),
            final(self)@.wf(),
            final(self)@.nodes.len() <= old(self)@.nodes.len(),
    {
        proof {
            lemma_forwarded_wf(self@);
        }
        self.forward();
        self.cleanup();
    }
}

} // verus!
