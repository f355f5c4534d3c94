//! The fanout of every input and node of a network snapshot.

use crate::network::model::{valid_signal, NetworkView};
use crate::network::signal::{Signal, Source};
use crate::network::Network;
use vstd::prelude::*;

verus! {

/// `v` once for each of the first `k` signals of `deps` that refer to `src`.
pub open spec fn occurrences(deps: Seq<Signal>, src: Source, k: int, v: u32) -> Seq<u32>
    decreases k,
{
    if k <= 0 {
        Seq::empty()
    } else {
        let rest = occurrences(deps, src, k - 1, v);
        if deps[k - 1].source == src {
            rest.push(v)
        } else {
            rest
        }
    }
}

/// The nodes below `m` that read `src`, in node order, each once per fanin
/// that refers to `src`.
pub open spec fn fanout_upto(net: NetworkView, src: Source, m: int) -> Seq<u32>
    decreases m,
{
    if m <= 0 {
        Seq::empty()
    } else {
        fanout_upto(net, src, m - 1) + occurrences(
            net.nodes[m - 1].deps,
            src,
            net.nodes[m - 1].deps.len() as int,
            (m - 1) as u32,
        )
    }
}

/// The fanout list of `src` in `net`.
pub open spec fn fanout_list(net: NetworkView, src: Source) -> Seq<u32> {
    fanout_upto(net, src, net.nodes.len() as int)
}

/// An occurrence list holds nothing but `v`, and holds it exactly when one
/// of the signals refers to `src`.
pub proof fn lemma_occurrences(deps: Seq<Signal>, src: Source, k: int, v: u32)
    requires
        0 <= k <= deps.len(),
    ensures
        forall|x: int|
            0 <= x < occurrences(deps, src, k, v).len() ==> #[trigger] occurrences(deps, src, k, v)[x] == v,
        occurrences(deps, src, k, v).len() > 0 <==> exists|m: int| 0 <= m < k && #[trigger] deps[m].source == src,
    decreases k,
{
    if k > 0 {
        lemma_occurrences(deps, src, k - 1, v);
        if deps[k - 1].source == src {
        } else {
            if occurrences(deps, src, k, v).len() > 0 {
                let m = choose|m: int| 0 <= m < k - 1 && #[trigger] deps[m].source == src;
                assert(deps[m].source == src);
            }
        }
    }
}

/// The fanout list up to `m` holds readers of `src` below `m` only, holds
/// every one of them, and is sorted ascending.
pub proof fn lemma_fanout_upto(net: NetworkView, src: Source, m: int)
    requires
        net.wf(),
        0 <= m <= net.nodes.len(),
    ensures
        forall|x: int|
            0 <= x < fanout_upto(net, src, m).len() ==> (#[trigger] fanout_upto(net, src, m)[x]) < m && net.reads(
                fanout_upto(net, src, m)[x] as int,
                src,
            ),
        forall|j: int| 0 <= j < m && #[trigger] net.reads(j, src) ==> fanout_upto(net, src, m).contains(j as u32),
        forall|a: int, b: int|
            0 <= a <= b < fanout_upto(net, src, m).len() ==> fanout_upto(net, src, m)[a] <= fanout_upto(
                net,
                src,
                m,
            )[b],
    decreases m,
{
    if m > 0 {
        lemma_fanout_upto(net, src, m - 1);
        let deps = net.nodes[m - 1].deps;
        let v = (m - 1) as u32;
        lemma_occurrences(deps, src, deps.len() as int, v);
        let before = fanout_upto(net, src, m - 1);
        let occ = occurrences(deps, src, deps.len() as int, v);
        let list = fanout_upto(net, src, m);
        assert(list == before + occ);
        assert forall|x: int| 0 <= x < list.len() implies (#[trigger] list[x]) < m && net.reads(
            list[x] as int,
            src,
        ) by {
            if x < before.len() {
                assert(list[x] == before[x]);
            } else {
                assert(list[x] == occ[x - before.len()]);
                assert(occ.len() > 0);
                let w = choose|w: int| 0 <= w < deps.len() && #[trigger] deps[w].source == src;
                assert(net.nodes[m - 1].deps[w].source == src);
            }
        }
        assert forall|j: int| 0 <= j < m && #[trigger] net.reads(j, src) implies list.contains(j as u32) by {
            if j < m - 1 {
                assert(before.contains(j as u32));
                let x = choose|x: int| 0 <= x < before.len() && before[x] == j as u32;
                assert(list[x] == j as u32);
            } else {
                let w = choose|w: int|
                    0 <= w < net.nodes[j].deps.len() && #[trigger] net.nodes[j].deps[w].source == src;
                assert(deps[w].source == src);
                assert(occ.len() > 0);
                assert(list[before.len() as int] == occ[0]);
            }
        }
        assert forall|a: int, b: int| 0 <= a <= b < list.len() implies list[a] <= list[b] by {
            if b < before.len() {
                assert(list[a] == before[a] && list[b] == before[b]);
            } else {
                assert(list[b] == occ[b - before.len()]);
                if a < before.len() {
                    assert(list[a] == before[a]);
                } else {
                    assert(list[a] == occ[a - before.len()]);
                }
            }
        }
    }
}

/// For every input and every node of a network, the nodes that read it.
#[derive(Clone, Debug, Default)]
pub struct FanoutView {
    pub pi_fanout: Vec<Vec<u32>>,
    pub node_fanout: Vec<Vec<u32>>,
}

impl FanoutView {
    /// The list that the view holds for the source of `s`: none for a
    /// constant.
    pub open spec fn spec_fanouts(&self, s: Signal) -> Seq<u32> {
        match s.source {
            Source::Constant => Seq::empty(),
            Source::Input(p) => self.pi_fanout@[p as int]@,
            Source::Node(j) => self.node_fanout@[j as int]@,
        }
    }

    /// The view holds the fanout list of every input and node of `net`.
    pub open spec fn is_view_of(&self, net: NetworkView) -> bool {
        &&& self.pi_fanout@.len() == net.nb_inputs
        &&& self.node_fanout@.len() == net.nodes.len()
        &&& forall|p: int|
            0 <= p < net.nb_inputs ==> (#[trigger] self.pi_fanout@[p])@ == fanout_list(net, Source::Input(p as u32))
        &&& forall|j: int|
            0 <= j < net.nodes.len() ==> (#[trigger] self.node_fanout@[j])@ == fanout_list(
                net,
                Source::Node(j as u32),
            )
    }

    /// `count` empty lists.
    fn empty_lists(count: usize) -> (lists: Vec<Vec<u32>>)
        ensures
            lists@.len() == count,
            forall|p: int| 0 <= p < count ==> (#[trigger] lists@[p])@ == Seq::<u32>::empty(),
    {
        let mut lists: Vec<Vec<u32>> = Vec::new();
        let mut i: usize = 0;
        while i < count
            invariant
                i <= count,
                lists@.len() == i,
                forall|p: int| 0 <= p < i ==> (#[trigger] lists@[p])@ == Seq::<u32>::empty(),
            decreases count - i,
        {
            lists.push(Vec::new());
            i += 1;
        }
        lists
    }

    /// Builds the view of `ntk` in one pass over the fanins of its nodes.
    pub fn new(ntk: &Network) -> (view: FanoutView)
        requires
            ntk@.wf(),
        ensures
            view.is_view_of(ntk@),
    {
        let ghost net = ntk@;
        let mut pi_fanout = Self::empty_lists(ntk.nb_inputs());
        let mut node_fanout = Self::empty_lists(ntk.nb_nodes());
        let n = ntk.nb_nodes();
        let mut i: usize = 0;
        while i < n
            invariant
                net == ntk@,
                net.wf(),
                n == net.nodes.len(),
                i <= n,
                pi_fanout@.len() == net.nb_inputs,
                node_fanout@.len() == n,
                forall|p: int|
                    0 <= p < net.nb_inputs ==> (#[trigger] pi_fanout@[p])@ == fanout_upto(
                        net,
                        Source::Input(p as u32),
                        i as int,
                    ),
                forall|j: int|
                    0 <= j < n ==> (#[trigger] node_fanout@[j])@ == fanout_upto(net, Source::Node(j as u32), i as int),
            decreases n - i,
        {
            let deps = ntk.gate(i).dependencies();
            let mut k: usize = 0;
            while k < deps.len()
                invariant
                    net == ntk@,
                    net.wf(),
                    n == net.nodes.len(),
                    i < n,
                    k <= deps.len(),
                    deps@ == net.nodes[i as int].deps,
                    pi_fanout@.len() == net.nb_inputs,
                    node_fanout@.len() == n,
                    forall|p: int|
                        0 <= p < net.nb_inputs ==> (#[trigger] pi_fanout@[p])@ == fanout_upto(
                            net,
                            Source::Input(p as u32),
                            i as int,
                        ) + occurrences(deps@, Source::Input(p as u32), k as int, i as u32),
                    forall|j: int|
                        0 <= j < n ==> (#[trigger] node_fanout@[j])@ == fanout_upto(
                            net,
                            Source::Node(j as u32),
                            i as int,
                        ) + occurrences(deps@, Source::Node(j as u32), k as int, i as u32),
                decreases deps.len() - k,
            {
                let fanin = deps[k];
                assert(valid_signal(net.nodes[i as int].deps[k as int], net.nb_inputs, i as int));
                let ghost pi_before = pi_fanout@;
                let ghost node_before = node_fanout@;
                if fanin.is_input() {
                    pi_fanout[fanin.input() as usize].push(i as u32);
                } else if !fanin.is_constant() {
                    node_fanout[fanin.var() as usize].push(i as u32);
                }
                proof {
                    assert forall|p: int| 0 <= p < net.nb_inputs implies (#[trigger] pi_fanout@[p])@ == fanout_upto(
                        net,
                        Source::Input(p as u32),
                        i as int,
                    ) + occurrences(deps@, Source::Input(p as u32), k + 1, i as u32) by {
                        let a = fanout_upto(net, Source::Input(p as u32), i as int);
                        let b = occurrences(deps@, Source::Input(p as u32), k as int, i as u32);
                        assert(pi_before[p]@ == a + b);
                        if fanin.source == Source::Input(p as u32) {
                            assert(pi_fanout@[p]@ =~= a + b.push(i as u32));
                        }
                    }
                    assert forall|j: int| 0 <= j < n implies (#[trigger] node_fanout@[j])@ == fanout_upto(
                        net,
                        Source::Node(j as u32),
                        i as int,
                    ) + occurrences(deps@, Source::Node(j as u32), k + 1, i as u32) by {
                        let a = fanout_upto(net, Source::Node(j as u32), i as int);
                        let b = occurrences(deps@, Source::Node(j as u32), k as int, i as u32);
                        assert(node_before[j]@ == a + b);
                        if fanin.source == Source::Node(j as u32) {
                            assert(node_fanout@[j]@ =~= a + b.push(i as u32));
                        }
                    }
                }
                k += 1;
            }
            i += 1;
        }
        FanoutView { pi_fanout, node_fanout }
    }

    /// The nodes that read the source of `s`, whatever its polarity: none
    /// for a constant.
    pub fn fanouts(&self, s: Signal) -> (list: &[u32])
        requires
            valid_signal(s, self.pi_fanout@.len(), self.node_fanout@.len() as int),
        ensures
            list@ == self.spec_fanouts(s),
    {
        if s.is_input() {
            self.pi_fanout[s.input() as usize].as_slice()
        } else if !s.is_constant() {
            self.node_fanout[s.var() as usize].as_slice()
        } else {
            &[]
        }
    }
}

/// The fanout list of the source of a valid signal holds exactly the nodes
/// that read that source, whatever the polarity, and is sorted ascending by
/// node index.
pub proof fn lemma_fanout_round_trip(view: FanoutView, net: NetworkView, s: Signal)
    requires
        net.wf(),
        view.is_view_of(net),
        valid_signal(s, net.nb_inputs, net.nodes.len() as int),
        !s.is_constant(),
    ensures
        forall|x: int|
            0 <= x < view.spec_fanouts(s).len() ==> (#[trigger] view.spec_fanouts(s)[x]) < net.nodes.len()
                && net.reads(view.spec_fanouts(s)[x] as int, s.source),
        forall|j: int|
            0 <= j < net.nodes.len() && #[trigger] net.reads(j, s.source) ==> view.spec_fanouts(s).contains(j as u32),
        forall|a: int, b: int|
            0 <= a <= b < view.spec_fanouts(s).len() ==> view.spec_fanouts(s)[a] <= view.spec_fanouts(s)[b],
        view.spec_fanouts(s.spec_not()) == view.spec_fanouts(s),
{
    lemma_fanout_upto(net, s.source, net.nodes.len() as int);
    match s.source {
        Source::Constant => {},
        Source::Input(p) => {
            assert(view.pi_fanout@[p as int]@ == fanout_list(net, Source::Input(p as int as u32)));
        },
        Source::Node(j) => {
            assert(view.node_fanout@[j as int]@ == fanout_list(net, Source::Node(j as int as u32)));
        },
    }
}

} // verus!
