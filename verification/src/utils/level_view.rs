//! Forward and reverse levels of the nodes of a network.

use crate::network::model::{
    lemma_fed_is_driven, lemma_feeds_through, lemma_reached_is_live, valid_signal,
    NetworkView,
};
use crate::network::signal::{Signal, Source};
use crate::utils::fanout_view::{fanout_list, lemma_fanout_upto, FanoutView};
use crate::network::Network;
use crate::utils::visited::{visited_contains, visited_insert, visited_new};
use fxhash::FxHashSet;
use vstd::prelude::*;

verus! {

/// The level that a table gives to entry `k`: zero without a table.
pub open spec fn table_level(table: Option<Seq<u32>>, k: int) -> nat {
    match table {
        Some(t) => if 0 <= k < t.len() {
            t[k] as nat
        } else {
            0
        },
        None => 0,
    }
}

/// The table as a value.
pub open spec fn table_view(table: Option<&Vec<u32>>) -> Option<Seq<u32>> {
    match table {
        Some(t) => Some(t@),
        None => None,
    }
}

/// A table is usable when it has one entry per slot and the largest level
/// that any node can get from it still fits in 32 bits.
pub open spec fn table_fits(table: Option<Seq<u32>>, slots: nat, nb_nodes: nat) -> bool {
    match table {
        Some(t) => t.len() == slots && forall|k: int|
            0 <= k < t.len() ==> #[trigger] t[k] + nb_nodes <= u32::MAX,
        None => true,
    }
}

/// Whether `table` has one entry per slot and leaves room for `nb_nodes`
/// increments on top of each of them.
pub fn table_is_usable(table: &Vec<u32>, slots: usize, nb_nodes: usize) -> (b: bool)
    ensures
        b == table_fits(Some(table@), slots as nat, nb_nodes as nat),
{
    if table.len() != slots {
        return false;
    }
    let mut k: usize = 0;
    while k < table.len()
        invariant
            k <= table@.len(),
            forall|m: int| 0 <= m < k ==> #[trigger] table@[m] + nb_nodes <= u32::MAX,
        decreases table@.len() - k,
    {
        if nb_nodes > u32::MAX as usize || table[k] > u32::MAX - nb_nodes as u32 {
            assert(!(table@[k as int] + nb_nodes <= u32::MAX));
            return false;
        }
        k += 1;
    }
    true
}

/// The largest level among the first `k` fanins of node `i`: the level of a
/// node fanin, the arrival level of an input fanin, zero for a constant, and
/// zero when there is none.
pub open spec fn fanin_max(
    net: NetworkView,
    arrivals: Option<Seq<u32>>,
    count_buffer: bool,
    i: int,
    k: int,
) -> nat
    decreases i, k,
{
    if i < 0 || i >= net.nodes.len() || k <= 0 || k > net.nodes[i].deps.len() {
        0
    } else {
        let rest = fanin_max(net, arrivals, count_buffer, i, k - 1);
        let here: nat = match net.nodes[i].deps[k - 1].source {
            Source::Constant => 0,
            Source::Input(p) => table_level(arrivals, p as int),
            Source::Node(j) => if j < i {
                fanin_max(net, arrivals, count_buffer, j as int, net.nodes[j as int].deps.len() as int)
                    + net.nodes[j as int].increment(count_buffer)
            } else {
                0
            },
        };
        if here > rest {
            here
        } else {
            rest
        }
    }
}

/// The forward level of node `i`: its increment on top of the largest level
/// among its fanins.
pub open spec fn forward_level(
    net: NetworkView,
    arrivals: Option<Seq<u32>>,
    count_buffer: bool,
    i: int,
) -> nat {
    fanin_max(net, arrivals, count_buffer, i, net.nodes[i].deps.len() as int) + net.nodes[i].increment(
        count_buffer,
    )
}

/// The level that a source brings to the nodes that read it: the forward
/// level of a node, the arrival level of an input, zero for the constant.
pub open spec fn signal_level(
    net: NetworkView,
    arrivals: Option<Seq<u32>>,
    count_buffer: bool,
    src: Source,
) -> nat {
    match src {
        Source::Constant => 0,
        Source::Input(p) => table_level(arrivals, p as int),
        Source::Node(j) => forward_level(net, arrivals, count_buffer, j as int),
    }
}

/// In a well-formed network the forward level of a node is its increment
/// plus the maximum of its fanins' levels: no fanin lies above
/// `fanin_max`, and `fanin_max` is zero or the level of one of them.
pub proof fn lemma_forward_level_is_max(
    net: NetworkView,
    arrivals: Option<Seq<u32>>,
    count_buffer: bool,
    i: int,
    k: int,
)
    requires
        net.wf(),
        0 <= i < net.nodes.len(),
        0 <= k <= net.nodes[i].deps.len(),
    ensures
        forward_level(net, arrivals, count_buffer, i) == net.nodes[i].increment(count_buffer) + fanin_max(
            net,
            arrivals,
            count_buffer,
            i,
            net.nodes[i].deps.len() as int,
        ),
        forall|m: int|
            0 <= m < k ==> signal_level(net, arrivals, count_buffer, #[trigger] net.nodes[i].deps[m].source)
                <= fanin_max(net, arrivals, count_buffer, i, k),
        fanin_max(net, arrivals, count_buffer, i, k) == 0 || exists|m: int|
            0 <= m < k && signal_level(net, arrivals, count_buffer, #[trigger] net.nodes[i].deps[m].source)
                == fanin_max(net, arrivals, count_buffer, i, k),
    decreases k,
{
    if k > 0 {
        lemma_forward_level_is_max(net, arrivals, count_buffer, i, k - 1);
        let s = net.nodes[i].deps[k - 1];
        assert(valid_signal(s, net.nb_inputs, i));
        let top = fanin_max(net, arrivals, count_buffer, i, k);
        let rest = fanin_max(net, arrivals, count_buffer, i, k - 1);
        let here = signal_level(net, arrivals, count_buffer, s.source);
        assert(top == if here > rest { here } else { rest });
        if top != 0 {
            if here > rest {
                assert(signal_level(net, arrivals, count_buffer, net.nodes[i].deps[k - 1].source) == top);
            } else {
                let m = choose|m: int|
                    0 <= m < k - 1 && signal_level(
                        net,
                        arrivals,
                        count_buffer,
                        #[trigger] net.nodes[i].deps[m].source,
                    ) == rest;
                assert(signal_level(net, arrivals, count_buffer, net.nodes[i].deps[m].source) == top);
            }
        }
    }
}

/// No level exceeds the largest arrival level by more than the number of
/// nodes up to and including the node.
pub proof fn lemma_fanin_max_bound(
    net: NetworkView,
    arrivals: Option<Seq<u32>>,
    count_buffer: bool,
    bound: nat,
    i: int,
    k: int,
)
    requires
        forall|p: int| table_level(arrivals, p) <= bound,
        0 <= i,
    ensures
        fanin_max(net, arrivals, count_buffer, i, k) <= bound + i,
    decreases i, k,
{
    if i < 0 || i >= net.nodes.len() || k <= 0 || k > net.nodes[i].deps.len() {
    } else {
        lemma_fanin_max_bound(net, arrivals, count_buffer, bound, i, k - 1);
        match net.nodes[i].deps[k - 1].source {
            Source::Constant => {},
            Source::Input(p) => {},
            Source::Node(j) => {
                if j < i {
                    lemma_fanin_max_bound(
                        net,
                        arrivals,
                        count_buffer,
                        bound,
                        j as int,
                        net.nodes[j as int].deps.len() as int,
                    );
                }
            },
        }
    }
}

/// Every live node is visited once every output node is, and the fanins of
/// every visited node are.
pub proof fn lemma_live_is_visited(net: NetworkView, visited: Set<u32>, i: int)
    requires
        net.wf(),
        forall|k: int|
            0 <= k < net.outputs.len() && (#[trigger] net.outputs[k]).source is Node ==> visited.contains(
                net.outputs[k].source->Node_0,
            ),
        forall|j: u32, k: int|
            visited.contains(j) && j < net.nodes.len() && 0 <= k < net.nodes[j as int].deps.len() && (
            #[trigger] net.nodes[j as int].deps[k]).source is Node ==> visited.contains(
                net.nodes[j as int].deps[k].source->Node_0,
            ),
        net.live(i),
    ensures
        visited.contains(i as u32),
    decreases net.nodes.len() - i,
{
    if net.is_output(Source::Node(i as u32)) {
        let k = choose|k: int| 0 <= k < net.outputs.len() && #[trigger] net.outputs[k].source == Source::Node(i as u32);
        assert(visited.contains(net.outputs[k].source->Node_0));
    } else {
        let j = choose|j: int|
            i < j < net.nodes.len() && #[trigger] net.reads(j, Source::Node(i as u32)) && net.live(j);
        lemma_live_is_visited(net, visited, j);
        let k = choose|k: int|
            0 <= k < net.nodes[j].deps.len() && #[trigger] net.nodes[j].deps[k].source == Source::Node(i as u32);
        assert(visited.contains(j as u32));
        assert(visited.contains(net.nodes[j as u32 as int].deps[k].source->Node_0));
    }
}

/// Computes forward levels by a memoized walk from the outputs.
pub struct LevelViewBuilder<'a> {
    pub ntk: &'a Network,
    pub pi_levels: Option<&'a Vec<u32>>,
    pub count_buffer: bool,
    pub visited: FxHashSet<u32>,
}

impl<'a> LevelViewBuilder<'a> {
    /// What is recorded of the visited node `j` is final: its level is
    /// stored, and its node fanins are visited too.
    pub open spec fn settled(&self, levels: Seq<u32>, j: u32) -> bool {
        let net = self.ntk@;
        &&& j < net.nodes.len()
        &&& levels[j as int] == forward_level(net, table_view(self.pi_levels), self.count_buffer, j as int)
        &&& forall|k: int|
            0 <= k < net.nodes[j as int].deps.len() && (#[trigger] net.nodes[j as int].deps[k]).source is Node
                ==> self.visited@.contains(net.nodes[j as int].deps[k].source->Node_0)
    }

    /// The builder and the level vector agree on every visited node below
    /// `bound`.
    pub open spec fn consistent(&self, levels: Seq<u32>, bound: int) -> bool {
        let net = self.ntk@;
        &&& net.wf()
        &&& levels.len() == net.nodes.len()
        &&& table_fits(table_view(self.pi_levels), net.nb_inputs, net.nodes.len())
        &&& forall|j: u32| #[trigger] self.visited@.contains(j) && j < bound ==> self.settled(levels, j)
    }

    /// The builder `self` continues `before` after a walk from node `top`:
    /// the same network and policy, what was visited stays visited with
    /// its level, and what is newly visited lies in the transitive fanin of
    /// `top`.
    pub open spec fn extends(&self, before: &Self, levels: Seq<u32>, old_levels: Seq<u32>, top: int) -> bool {
        &&& self.ntk == before.ntk
        &&& self.pi_levels == before.pi_levels
        &&& self.count_buffer == before.count_buffer
        &&& levels.len() == old_levels.len()
        &&& before.visited@.subset_of(self.visited@)
        &&& forall|j: u32|
            #[trigger] self.visited@.contains(j) && !before.visited@.contains(j) ==> j <= top && self.ntk@.reaches(
                top,
                j as int,
            )
        &&& forall|j: int|
            0 <= j < levels.len() && (before.visited@.contains(j as u32) || !self.visited@.contains(j as u32))
                ==> #[trigger] levels[j] == old_levels[j]
    }

    /// The arrival level of primary input `pi`.
    fn fanin_level(&self, pi: u32) -> (lv: u32)
        requires
            table_fits(table_view(self.pi_levels), self.ntk@.nb_inputs, self.ntk@.nodes.len()),
            pi < self.ntk@.nb_inputs,
        ensures
            lv == table_level(table_view(self.pi_levels), pi as int),
    {
        match self.pi_levels {
            Some(levels) => levels[pi as usize],
            None => 0,
        }
    }

    /// The level of `node`, computed with those of its transitive fanin on
    /// the first visit and read back on every later one.
    pub fn update(&mut self, node: u32, levels: &mut Vec<u32>) -> (lv: u32)
        requires
            old(self).consistent(old(levels)@, node + 1),
            node < old(self).ntk@.nodes.len(),
        ensures
            final(self).consistent(final(levels)@, node + 1),
            final(self).extends(old(self), final(levels)@, old(levels)@, node as int),
            final(self).visited@.contains(node),
            lv == forward_level(old(self).ntk@, table_view(old(self).pi_levels), old(self).count_buffer, node as int),
        decreases node,
    {
        if visited_contains(&self.visited, node) {
            return levels[node as usize];
        }
        visited_insert(&mut self.visited, node);

        let ghost net = self.ntk@;
        let ghost arrivals = table_view(self.pi_levels);
        let count_buffer = self.count_buffer;
        let mut lv: u32 = 0;
        let g = self.ntk.gate(node as usize);
        let deps = g.dependencies();
        let mut k: usize = 0;
        while k < deps.len()
            invariant
                k <= deps.len(),
                deps@ == net.nodes[node as int].deps,
                net == old(self).ntk@,
                arrivals == table_view(old(self).pi_levels),
                count_buffer == old(self).count_buffer,
                node < net.nodes.len(),
                lv == fanin_max(net, arrivals, count_buffer, node as int, k as int),
                self.consistent(levels@, node as int),
                self.extends(old(self), levels@, old(levels)@, node as int),
                self.visited@.contains(node),
                !old(self).visited@.contains(node),
                forall|m: int|
                    0 <= m < k && (#[trigger] deps@[m]).source is Node ==> self.visited@.contains(
                        deps@[m].source->Node_0,
                    ),
            decreases deps.len() - k,
        {
            let fanin = deps[k];
            assert(valid_signal(net.nodes[node as int].deps[k as int], net.nb_inputs, node as int));
            if fanin.is_input() {
                let l = self.fanin_level(fanin.input());
                if l > lv {
                    lv = l;
                }
            } else if !fanin.is_constant() {
                let d = fanin.var();
                proof {
                    assert(net.nodes[node as int].deps[k as int].source == Source::Node(d));
                }
                let ghost mid = *self;
                let ghost mid_levels = levels@;
                let l = self.update(d, levels);
                proof {
                    assert forall|j: u32|
                        #[trigger] self.visited@.contains(j) && !old(self).visited@.contains(j) implies j <= node
                        && net.reaches(node as int, j as int) by {
                        if !mid.visited@.contains(j) {
                            assert(net.reaches(d as int, j as int));
                            assert(net.nodes[node as int].deps[k as int].source == Source::Node(d));
                        }
                    }
                    assert forall|j: u32| self.visited@.contains(j) && j < node implies self.settled(
                        levels@,
                        j,
                    ) by {
                        if j > d {
                            assert(mid.visited@.contains(j));
                            assert(mid.settled(mid_levels, j));
                        }
                    }
                }
                if l > lv {
                    lv = l;
                }
            }
            k += 1;
        }

        let inc: u32 = if count_buffer {
            1
        } else if g.is_buf() {
            0
        } else {
            1
        };
        proof {
            let bound: nat = (u32::MAX - net.nodes.len()) as nat;
            assert forall|p: int| table_level(arrivals, p) <= bound by {
                if let Some(t) = arrivals {
                    if 0 <= p < t.len() {
                        assert(t[p] + net.nodes.len() <= u32::MAX);
                    }
                }
            }
            lemma_fanin_max_bound(net, arrivals, count_buffer, bound, node as int, deps@.len() as int);
        }
        let total = lv + inc;
        let ghost pre = levels@;
        levels.set(node as usize, total);
        proof {
            assert forall|j: u32| self.visited@.contains(j) && j < node + 1 implies self.settled(
                levels@,
                j,
            ) by {
                if j < node {
                    assert(self.settled(pre, j));
                }
            }
        }
        total
    }

    /// The levels of all nodes, starting from a builder that has visited
    /// nothing: the forward level for every live node, zero for the others.
    pub fn build(&mut self) -> (levels: Vec<u32>)
        requires
            old(self).ntk@.wf(),
            table_fits(table_view(old(self).pi_levels), old(self).ntk@.nb_inputs, old(self).ntk@.nodes.len()),
            old(self).visited@ == Set::<u32>::empty(),
        ensures
            final(self).ntk == old(self).ntk,
            final(self).pi_levels == old(self).pi_levels,
            final(self).count_buffer == old(self).count_buffer,
            is_forward_levels(
                old(self).ntk@,
                table_view(old(self).pi_levels),
                old(self).count_buffer,
                levels@,
            ),
            forall|i: int|
                0 <= i < levels@.len() ==> (final(self).visited@.contains(i as u32) <==> old(self).ntk@.live(i)),
    {
        let n = self.ntk.nb_nodes();
        let mut levels: Vec<u32> = Vec::new();
        let mut i: usize = 0;
        while i < n
            invariant
                i <= n,
                levels@.len() == i,
                forall|j: int| 0 <= j < i ==> levels@[j] == 0,
            decreases n - i,
        {
            levels.push(0);
            i += 1;
        }
        let ghost net = self.ntk@;
        let mut po: usize = 0;
        while po < self.ntk.nb_outputs()
            invariant
                po <= net.outputs.len(),
                net == self.ntk@,
                self.ntk == old(self).ntk,
                self.pi_levels == old(self).pi_levels,
                self.count_buffer == old(self).count_buffer,
                self.consistent(levels@, net.nodes.len() as int),
                forall|j: u32| #[trigger] self.visited@.contains(j) ==> net.live(j as int),
                forall|j: int| 0 <= j < levels@.len() && !self.visited@.contains(j as u32) ==> levels@[j] == 0,
                forall|k: int|
                    0 <= k < po && (#[trigger] net.outputs[k]).source is Node ==> self.visited@.contains(
                        net.outputs[k].source->Node_0,
                    ),
            decreases net.outputs.len() - po,
        {
            let s = self.ntk.output(po);
            assert(valid_signal(net.outputs[po as int], net.nb_inputs, net.nodes.len() as int));
            if s.is_var() {
                let r = s.var();
                proof {
                    assert(net.outputs[po as int].source == Source::Node(r));
                    assert(net.is_output(Source::Node(r)));
                    assert(net.live(r as int));
                }
                let ghost mid = *self;
                let ghost mid_levels = levels@;
                self.update(r, &mut levels);
                proof {
                    assert forall|j: u32| #[trigger] self.visited@.contains(j) implies net.live(j as int) by {
                        if !mid.visited@.contains(j) {
                            lemma_reached_is_live(net, r as int, j as int);
                        }
                    }
                    assert forall|j: u32| self.visited@.contains(j) && j < net.nodes.len() implies self.settled(
                        levels@,
                        j,
                    ) by {
                        if j > r {
                            assert(mid.visited@.contains(j));
                            assert(mid.settled(mid_levels, j));
                        }
                    }
                }
            }
            po += 1;
        }
        proof {
            assert forall|i: int| 0 <= i < levels@.len() implies (self.visited@.contains(i as u32) <==> net.live(i)) by {
                if net.live(i) {
                    assert forall|j: u32, k: int|
                        self.visited@.contains(j) && j < net.nodes.len() && 0 <= k < net.nodes[j as int].deps.len()
                            && (#[trigger] net.nodes[j as int].deps[k]).source is Node implies self.visited@.contains(
                        net.nodes[j as int].deps[k].source->Node_0,
                    ) by {
                        assert(self.settled(levels@, j));
                    }
                    lemma_live_is_visited(net, self.visited@, i);
                }
            }
        }
        levels
    }

    /// The forward levels of the nodes of `ntk`.
    ///
    /// `pi_levels_config` gives the arrival level of each primary input,
    /// zero for all of them when it is absent. Buffers count for a level
    /// unless `count_buffer` is `Some(false)`.
    pub fn compute_levels(
        ntk: &'a Network,
        pi_levels_config: Option<&'a Vec<u32>>,
        count_buffer: Option<bool>,
    ) -> (levels: Vec<u32>)
        requires
            ntk@.wf(),
            table_fits(table_view(pi_levels_config), ntk@.nb_inputs, ntk@.nodes.len()),
        ensures
            is_forward_levels(
                ntk@,
                table_view(pi_levels_config),
                count_buffer != Some(false),
                levels@,
            ),
    {
        let cb = match count_buffer {
            Some(b) => b,
            None => true,
        };
        let mut builder = LevelViewBuilder {
            ntk,
            pi_levels: pi_levels_config,
            count_buffer: cb,
            visited: visited_new(),
        };
        builder.build()
    }
}

/// `levels` holds, for every node, its forward level if the node is live
/// and zero if it is not.
pub open spec fn is_forward_levels(
    net: NetworkView,
    arrivals: Option<Seq<u32>>,
    count_buffer: bool,
    levels: Seq<u32>,
) -> bool {
    &&& levels.len() == net.nodes.len()
    &&& forall|i: int|
        0 <= i < levels.len() ==> #[trigger] levels[i] == if net.live(i) {
            forward_level(net, arrivals, count_buffer, i)
        } else {
            0
        }
}

/// The forward levels of the nodes of `ntk`, every input arriving at level
/// zero.
pub fn compute_levels(ntk: &Network, count_buffer: bool) -> (levels: Vec<u32>)
    requires
        ntk@.wf(),
    ensures
        is_forward_levels(ntk@, None, count_buffer, levels@),
{
    LevelViewBuilder::compute_levels(ntk, None, Some(count_buffer))
}

/// The index of the first output at or after `k` that refers to `src`, or
/// the number of outputs when there is none.
pub open spec fn first_output(outputs: Seq<Signal>, src: Source, k: int) -> int
    decreases outputs.len() - k,
{
    if k < 0 || k >= outputs.len() {
        outputs.len() as int
    } else if outputs[k].source == src {
        k
    } else {
        first_output(outputs, src, k + 1)
    }
}

/// The level required of `src` as an output: the table's entry for the first
/// output that refers to it, and zero for an input or a constant, without a
/// table, or when no output refers to it.
pub open spec fn required_level(net: NetworkView, required: Option<Seq<u32>>, src: Source) -> nat {
    if src is Node {
        table_level(required, first_output(net.outputs, src, 0))
    } else {
        0
    }
}

/// The largest among the level required of `src` and the reverse levels of
/// the nodes at or above `j` that read `src`.
pub open spec fn reader_max(
    net: NetworkView,
    required: Option<Seq<u32>>,
    count_buffer: bool,
    src: Source,
    j: int,
) -> nat
    decreases net.nodes.len() - j,
{
    if j < 0 || j >= net.nodes.len() {
        required_level(net, required, src)
    } else {
        let rest = reader_max(net, required, count_buffer, src, j + 1);
        let here: nat = if net.reads(j, src) {
            reader_max(net, required, count_buffer, Source::Node(j as u32), j + 1) + net.nodes[j].increment(
                count_buffer,
            )
        } else {
            0
        };
        if here > rest {
            here
        } else {
            rest
        }
    }
}

/// The reverse level of node `i`: its increment on top of the largest among
/// its own required level and the reverse levels of the nodes that read it.
pub open spec fn reverse_level(
    net: NetworkView,
    required: Option<Seq<u32>>,
    count_buffer: bool,
    i: int,
) -> nat {
    reader_max(net, required, count_buffer, Source::Node(i as u32), i + 1) + net.nodes[i].increment(count_buffer)
}

/// `reader_max` is a maximum: it lies at or above the required level and
/// the reverse level of every reader at or above `j`, and it is one of
/// them.
pub proof fn lemma_reader_max_is_max(
    net: NetworkView,
    required: Option<Seq<u32>>,
    count_buffer: bool,
    src: Source,
    j: int,
)
    requires
        net.wf(),
        0 <= j <= net.nodes.len(),
    ensures
        required_level(net, required, src) <= reader_max(net, required, count_buffer, src, j),
        forall|r: int|
            j <= r < net.nodes.len() && #[trigger] net.reads(r, src) ==> reverse_level(
                net,
                required,
                count_buffer,
                r,
            ) <= reader_max(net, required, count_buffer, src, j),
        reader_max(net, required, count_buffer, src, j) == required_level(net, required, src) || exists|r: int|
            j <= r < net.nodes.len() && #[trigger] net.reads(r, src) && reverse_level(
                net,
                required,
                count_buffer,
                r,
            ) == reader_max(net, required, count_buffer, src, j),
    decreases net.nodes.len() - j,
{
    if j < net.nodes.len() {
        lemma_reader_max_is_max(net, required, count_buffer, src, j + 1);
        let top = reader_max(net, required, count_buffer, src, j);
        let rest = reader_max(net, required, count_buffer, src, j + 1);
        if top != required_level(net, required, src) {
            if net.reads(j, src) && reverse_level(net, required, count_buffer, j) == top {
            } else {
                assert(top == rest);
                let r = choose|r: int|
                    j + 1 <= r < net.nodes.len() && #[trigger] net.reads(r, src) && reverse_level(
                        net,
                        required,
                        count_buffer,
                        r,
                    ) == rest;
                assert(net.reads(r, src));
            }
        }
    }
}

/// Only nodes above `i` read node `i`, so the maximum over its readers is
/// the same from any starting point at or below `i + 1`.
pub proof fn lemma_reader_max_from_start(
    net: NetworkView,
    required: Option<Seq<u32>>,
    count_buffer: bool,
    i: int,
    j: int,
)
    requires
        net.wf(),
        0 <= j <= i + 1 <= net.nodes.len(),
    ensures
        reader_max(net, required, count_buffer, Source::Node(i as u32), j) == reader_max(
            net,
            required,
            count_buffer,
            Source::Node(i as u32),
            i + 1,
        ),
    decreases i + 1 - j,
{
    if j < i + 1 {
        lemma_reader_max_from_start(net, required, count_buffer, i, j + 1);
        if net.reads(j, Source::Node(i as u32)) {
            let k = choose|k: int|
                0 <= k < net.nodes[j].deps.len() && #[trigger] net.nodes[j].deps[k].source == Source::Node(i as u32);
            assert(valid_signal(net.nodes[j].deps[k], net.nb_inputs, j));
        }
    }
}

/// No reverse level exceeds the largest required level by more than the
/// number of nodes from the node on.
pub proof fn lemma_reader_max_bound(
    net: NetworkView,
    required: Option<Seq<u32>>,
    count_buffer: bool,
    bound: nat,
    src: Source,
    j: int,
)
    requires
        forall|p: int| table_level(required, p) <= bound,
        0 <= j <= net.nodes.len(),
    ensures
        reader_max(net, required, count_buffer, src, j) <= bound + net.nodes.len() - j,
    decreases net.nodes.len() - j,
{
    if j < net.nodes.len() {
        lemma_reader_max_bound(net, required, count_buffer, bound, src, j + 1);
        lemma_reader_max_bound(net, required, count_buffer, bound, Source::Node(j as u32), j + 1);
    }
}

/// Every driven node is visited once the readers of every input and of
/// every visited node are.
pub proof fn lemma_driven_is_visited(net: NetworkView, visited: Set<u32>, i: int)
    requires
        net.wf(),
        forall|p: u32, r: int|
            p < net.nb_inputs && 0 <= r < net.nodes.len() && #[trigger] net.reads(r, Source::Input(p))
                ==> visited.contains(r as u32),
        forall|j: u32, r: int|
            visited.contains(j) && j < net.nodes.len() && 0 <= r < net.nodes.len() && #[trigger] net.reads(
                r,
                Source::Node(j),
            ) ==> visited.contains(r as u32),
        net.driven(i),
    ensures
        visited.contains(i as u32),
    decreases i,
{
    let k = choose|k: int|
        0 <= k < net.nodes[i].deps.len() && match (#[trigger] net.nodes[i].deps[k]).source {
            Source::Constant => false,
            Source::Input(_) => true,
            Source::Node(j) => j < i && net.driven(j as int),
        };
    let s = net.nodes[i].deps[k];
    assert(valid_signal(s, net.nb_inputs, i));
    match s.source {
        Source::Constant => {},
        Source::Input(p) => {
            assert(net.reads(i, Source::Input(p)));
        },
        Source::Node(j) => {
            lemma_driven_is_visited(net, visited, j as int);
            assert(net.reads(i, Source::Node(j)));
        },
    }
}

/// The lowest node that a walk from `src` may newly visit.
pub open spec fn floor_of(src: Source) -> int {
    match src {
        Source::Node(i) => i + 1,
        _ => 0,
    }
}

/// How far the walk from `src` can still go in a network of `n` nodes.
pub open spec fn height_of(src: Source, n: nat) -> int {
    match src {
        Source::Node(i) => n - i,
        _ => (n + 1) as int,
    }
}

/// Computes reverse levels by a memoized walk from the inputs along the
/// fanout.
pub struct ReverseLevelViewBuilder<'a> {
    pub ntk: &'a Network,
    pub fanout_view: &'a FanoutView,
    pub po_levels: Option<&'a Vec<u32>>,
    pub count_buffer: bool,
    pub visited: FxHashSet<u32>,
}

impl<'a> ReverseLevelViewBuilder<'a> {
    /// Every node that reads `src` is visited.
    pub open spec fn readers_visited(&self, src: Source) -> bool {
        forall|r: int|
            0 <= r < self.ntk@.nodes.len() && #[trigger] self.ntk@.reads(r, src) ==> self.visited@.contains(r as u32)
    }

    /// What is recorded of the visited node `j` is final: its level is
    /// stored, and the nodes that read it are visited too.
    pub open spec fn settled(&self, levels: Seq<u32>, j: u32) -> bool {
        let net = self.ntk@;
        &&& j < net.nodes.len()
        &&& levels[j as int] == reverse_level(net, table_view(self.po_levels), self.count_buffer, j as int)
        &&& self.readers_visited(Source::Node(j))
    }

    /// The builder and the level vector agree on every visited node at or
    /// above `bound`.
    pub open spec fn consistent(&self, levels: Seq<u32>, bound: int) -> bool {
        let net = self.ntk@;
        &&& net.wf()
        &&& self.fanout_view.is_view_of(net)
        &&& levels.len() == net.nodes.len()
        &&& table_fits(table_view(self.po_levels), net.outputs.len(), net.nodes.len())
        &&& forall|j: u32| #[trigger] self.visited@.contains(j) && j >= bound ==> self.settled(levels, j)
    }

    /// The builder `self` continues `before`: the same network and policy,
    /// and what was visited stays visited.
    pub open spec fn extends(&self, before: &Self, levels: Seq<u32>, old_levels: Seq<u32>, bottom: int) -> bool {
        &&& self.ntk == before.ntk
        &&& self.fanout_view == before.fanout_view
        &&& self.po_levels == before.po_levels
        &&& self.count_buffer == before.count_buffer
        &&& levels.len() == old_levels.len()
        &&& before.visited@.subset_of(self.visited@)
        &&& forall|j: u32| #[trigger] self.visited@.contains(j) && !before.visited@.contains(j) ==> j >= bottom
        &&& forall|j: int|
            0 <= j < levels.len() && (before.visited@.contains(j as u32) || !self.visited@.contains(j as u32))
                ==> #[trigger] levels[j] == old_levels[j]
    }

    /// What `self` has visited and `before` had not lies in the transitive
    /// fanout of `src`.
    pub open spec fn newly_fed(&self, before: &Self, src: Source) -> bool {
        forall|j: u32|
            #[trigger] self.visited@.contains(j) && !before.visited@.contains(j) ==> self.ntk@.feeds(src, j as int)
    }

    /// What `self` has visited and `before` had not is `node` or lies in
    /// its transitive fanout.
    pub open spec fn newly_fed_from(&self, before: &Self, node: u32) -> bool {
        forall|j: u32|
            #[trigger] self.visited@.contains(j) && !before.visited@.contains(j) ==> j == node || self.ntk@.feeds(
                Source::Node(node),
                j as int,
            )
    }

    /// The level required of primary output `po`.
    fn fanout_level(&self, po: usize) -> (lv: u32)
        requires
            table_fits(table_view(self.po_levels), self.ntk@.outputs.len(), self.ntk@.nodes.len()),
            po < self.ntk@.outputs.len(),
        ensures
            lv == table_level(table_view(self.po_levels), po as int),
    {
        match self.po_levels {
            Some(levels) => levels[po],
            None => 0,
        }
    }

    /// The level required of `sig` as an output.
    fn add_fanout_levels(&self, sig: Signal) -> (lv: u32)
        requires
            table_fits(table_view(self.po_levels), self.ntk@.outputs.len(), self.ntk@.nodes.len()),
        ensures
            lv == required_level(self.ntk@, table_view(self.po_levels), sig.source),
    {
        if self.po_levels.is_none() || !sig.is_var() {
            0
        } else {
            let ghost outputs = self.ntk@.outputs;
            let n = self.ntk.nb_outputs();
            let mut po: usize = 0;
            while po < n
                invariant
                    po <= n,
                    n == outputs.len(),
                    outputs == self.ntk@.outputs,
                    sig.is_var(),
                    table_fits(table_view(self.po_levels), self.ntk@.outputs.len(), self.ntk@.nodes.len()),
                    first_output(outputs, sig.source, 0) == first_output(outputs, sig.source, po as int),
                decreases n - po,
            {
                let out = self.ntk.output(po);
                if out.is_var() && out.var() == sig.var() {
                    return self.fanout_level(po);
                }
                po += 1;
            }
            0
        }
    }

    /// The largest among the level required of `sig` and the reverse levels
    /// of the nodes that read its source, each of which is visited.
    pub fn update(&mut self, sig: Signal, levels: &mut Vec<u32>) -> (lv: u32)
        requires
            old(self).consistent(old(levels)@, floor_of(sig.source)),
            valid_signal(sig, old(self).ntk@.nb_inputs, old(self).ntk@.nodes.len() as int),
        ensures
            final(self).consistent(final(levels)@, floor_of(sig.source)),
            final(self).extends(old(self), final(levels)@, old(levels)@, floor_of(sig.source)),
            final(self).newly_fed(old(self), sig.source),
            !sig.is_constant() ==> final(self).readers_visited(sig.source),
            lv == if sig.is_constant() {
                0
            } else {
                reader_max(
                    old(self).ntk@,
                    table_view(old(self).po_levels),
                    old(self).count_buffer,
                    sig.source,
                    0,
                )
            },
        decreases height_of(sig.source, old(self).ntk@.nodes.len()), 1int,
    {
        let ghost net = self.ntk@;
        let ghost required = table_view(self.po_levels);
        let ghost cb = self.count_buffer;
        let ghost src = sig.source;
        let mut lv = self.add_fanout_levels(sig);
        let view: &FanoutView = self.fanout_view;
        let list = view.fanouts(sig);
        proof {
            if !sig.is_constant() {
                lemma_fanout_upto(net, src, net.nodes.len() as int);
                match src {
                    Source::Constant => {},
                    Source::Input(p) => {
                        assert(view.pi_fanout@[p as int]@ == fanout_list(
                            net,
                            Source::Input(p as int as u32),
                        ));
                    },
                    Source::Node(j) => {
                        assert(view.node_fanout@[j as int]@ == fanout_list(
                            net,
                            Source::Node(j as int as u32),
                        ));
                    },
                }
            }
        }
        let mut k: usize = 0;
        while k < list.len()
            invariant
                k <= list.len(),
                net == old(self).ntk@,
                required == table_view(old(self).po_levels),
                cb == old(self).count_buffer,
                src == sig.source,
                valid_signal(sig, net.nb_inputs, net.nodes.len() as int),
                self.newly_fed(old(self), src),
                list@ == view.spec_fanouts(sig),
                forall|x: int|
                    0 <= x < list@.len() ==> (#[trigger] list@[x]) < net.nodes.len() && net.reads(list@[x] as int, src),
                self.consistent(levels@, floor_of(src)),
                self.extends(old(self), levels@, old(levels)@, floor_of(src)),
                required_level(net, required, src) <= lv,
                forall|x: int|
                    0 <= x < k ==> self.visited@.contains(#[trigger] list@[x]) && reverse_level(
                        net,
                        required,
                        cb,
                        list@[x] as int,
                    ) <= lv,
                lv == required_level(net, required, src) || exists|x: int|
                    0 <= x < k && reverse_level(net, required, cb, #[trigger] list@[x] as int) == lv,
            decreases list.len() - k,
        {
            let f = list[k];
            proof {
                let w = choose|w: int|
                    0 <= w < net.nodes[f as int].deps.len() && #[trigger] net.nodes[f as int].deps[w].source == src;
                assert(valid_signal(net.nodes[f as int].deps[w], net.nb_inputs, f as int));
            }
            let ghost mid = *self;
            let ghost mid_levels = levels@;
            let ghost before = lv;
            let l = self.update_node(f, levels);
            proof {
                assert forall|j: u32|
                    #[trigger] self.visited@.contains(j) && !old(self).visited@.contains(j) implies net.feeds(
                    src,
                    j as int,
                ) by {
                    if !mid.visited@.contains(j) {
                        if j == f {
                            assert(net.reads(f as int, src));
                        } else {
                            lemma_feeds_through(net, src, f as int, j as int);
                        }
                    }
                }
                assert forall|j: u32| self.visited@.contains(j) && j >= floor_of(src) implies self.settled(
                    levels@,
                    j,
                ) by {
                    if j < f {
                        assert(mid.visited@.contains(j));
                        assert(mid.settled(mid_levels, j));
                    }
                }
            }
            if l > lv {
                lv = l;
            }
            proof {
                if lv != required_level(net, required, src) {
                    if lv == l {
                        assert(reverse_level(net, required, cb, list@[k as int] as int) == lv);
                    } else {
                        let x = choose|x: int|
                            0 <= x < k && reverse_level(net, required, cb, #[trigger] list@[x] as int) == before;
                        assert(reverse_level(net, required, cb, list@[x] as int) == lv);
                    }
                }
            }
            k += 1;
        }
        proof {
            if !sig.is_constant() {
                lemma_reader_max_is_max(net, required, cb, src, 0);
                let top = reader_max(net, required, cb, src, 0);
                assert forall|r: int| 0 <= r < net.nodes.len() && #[trigger] net.reads(r, src) implies self.visited@.contains(
                    r as u32,
                ) && reverse_level(net, required, cb, r) <= lv by {
                    assert(list@.contains(r as u32));
                    let x = choose|x: int| 0 <= x < list@.len() && list@[x] == r as u32;
                    assert(self.visited@.contains(list@[x]));
                }
                if lv != required_level(net, required, src) {
                    let x = choose|x: int|
                        0 <= x < k && reverse_level(net, required, cb, #[trigger] list@[x] as int) == lv;
                    assert(net.reads(list@[x] as int, src));
                }
                assert(lv <= top);
                assert(top <= lv);
            } else {
                assert(list@.len() == 0);
            }
        }
        lv
    }

    /// The reverse level of `node`, computed with those of its transitive
    /// fanout on the first visit and read back on every later one.
    pub fn update_node(&mut self, node: u32, levels: &mut Vec<u32>) -> (lv: u32)
        requires
            old(self).consistent(old(levels)@, node as int),
            node < old(self).ntk@.nodes.len(),
        ensures
            final(self).consistent(final(levels)@, node as int),
            final(self).extends(old(self), final(levels)@, old(levels)@, node as int),
            final(self).newly_fed_from(old(self), node),
            final(self).visited@.contains(node),
            lv == reverse_level(
                old(self).ntk@,
                table_view(old(self).po_levels),
                old(self).count_buffer,
                node as int,
            ),
        decreases old(self).ntk@.nodes.len() - node, 2int,
    {
        if visited_contains(&self.visited, node) {
            return levels[node as usize];
        }
        visited_insert(&mut self.visited, node);
        let ghost net = self.ntk@;
        let ghost required = table_view(self.po_levels);
        let count_buffer = self.count_buffer;

        let sig = self.ntk.node(node as usize);
        let ghost mid = *self;
        let ghost mid_levels = levels@;
        let lv = self.update(sig, levels);

        let inc: u32 = if count_buffer {
            1
        } else if self.ntk.gate(node as usize).is_buf() {
            0
        } else {
            1
        };
        proof {
            lemma_reader_max_from_start(net, required, count_buffer, node as int, 0);
            let bound: nat = (u32::MAX - net.nodes.len()) as nat;
            assert forall|p: int| table_level(required, p) <= bound by {
                if let Some(t) = required {
                    if 0 <= p < t.len() {
                        assert(t[p] + net.nodes.len() <= u32::MAX);
                    }
                }
            }
            lemma_reader_max_bound(net, required, count_buffer, bound, Source::Node(node), node + 1);
        }
        let total = lv + inc;
        let ghost pre = levels@;
        levels.set(node as usize, total);
        proof {
            assert forall|j: u32| self.visited@.contains(j) && j >= node implies self.settled(levels@, j) by {
                if j > node {
                    assert(self.settled(pre, j));
                }
            }
        }
        total
    }

    /// The levels of all nodes, starting from a builder that has visited
    /// nothing: the reverse level for every driven node, zero for the
    /// others.
    pub fn build(&mut self) -> (levels: Vec<u32>)
        requires
            old(self).ntk@.wf(),
            old(self).fanout_view.is_view_of(old(self).ntk@),
            table_fits(table_view(old(self).po_levels), old(self).ntk@.outputs.len(), old(self).ntk@.nodes.len()),
            old(self).visited@ == Set::<u32>::empty(),
        ensures
            final(self).ntk == old(self).ntk,
            final(self).fanout_view == old(self).fanout_view,
            final(self).po_levels == old(self).po_levels,
            final(self).count_buffer == old(self).count_buffer,
            is_reverse_levels(
                old(self).ntk@,
                table_view(old(self).po_levels),
                old(self).count_buffer,
                levels@,
            ),
            forall|i: int|
                0 <= i < levels@.len() ==> (final(self).visited@.contains(i as u32) <==> old(self).ntk@.driven(i)),
    {
        let n = self.ntk.nb_nodes();
        let mut levels: Vec<u32> = Vec::new();
        let mut i: usize = 0;
        while i < n
            invariant
                i <= n,
                levels@.len() == i,
                forall|j: int| 0 <= j < i ==> levels@[j] == 0,
            decreases n - i,
        {
            levels.push(0);
            i += 1;
        }
        let ghost net = self.ntk@;
        let mut pi: usize = 0;
        while pi < self.ntk.nb_inputs()
            invariant
                pi <= net.nb_inputs,
                net == self.ntk@,
                self.ntk == old(self).ntk,
                self.fanout_view == old(self).fanout_view,
                self.po_levels == old(self).po_levels,
                self.count_buffer == old(self).count_buffer,
                self.consistent(levels@, 0),
                forall|j: u32| #[trigger] self.visited@.contains(j) ==> net.driven(j as int),
                forall|j: int| 0 <= j < levels@.len() && !self.visited@.contains(j as u32) ==> levels@[j] == 0,
                forall|p: u32| p < pi ==> #[trigger] self.readers_visited(Source::Input(p)),
            decreases net.nb_inputs - pi,
        {
            let s = self.ntk.input(pi);
            let ghost mid = *self;
            self.update(s, &mut levels);
            proof {
                assert forall|j: u32| #[trigger] self.visited@.contains(j) implies net.driven(j as int) by {
                    if !mid.visited@.contains(j) {
                        lemma_fed_is_driven(net, s.source, j as int);
                    }
                }
                assert forall|p: u32| p < pi + 1 implies #[trigger] self.readers_visited(Source::Input(p)) by {
                    if p < pi {
                        assert(mid.readers_visited(Source::Input(p)));
                    }
                }
            }
            pi += 1;
        }
        proof {
            assert forall|i: int| 0 <= i < levels@.len() implies (self.visited@.contains(i as u32) <==> net.driven(
                i,
            )) by {
                if net.driven(i) {
                    assert forall|p: u32, r: int|
                        p < net.nb_inputs && 0 <= r < net.nodes.len() && #[trigger] net.reads(
                            r,
                            Source::Input(p),
                        ) implies self.visited@.contains(r as u32) by {
                        assert(self.readers_visited(Source::Input(p)));
                    }
                    assert forall|j: u32, r: int|
                        self.visited@.contains(j) && j < net.nodes.len() && 0 <= r < net.nodes.len()
                            && #[trigger] net.reads(r, Source::Node(j)) implies self.visited@.contains(r as u32) by {
                        assert(self.settled(levels@, j));
                    }
                    lemma_driven_is_visited(net, self.visited@, i);
                }
            }
        }
        levels
    }

    /// The reverse levels of the nodes of `ntk`, whose fanout is
    /// `fanout_view`.
    ///
    /// `po_levels_config` gives the level required of each primary output,
    /// zero for all of them when it is absent. Buffers count for a level
    /// unless `count_buffer` is `Some(false)`.
    pub fn compute_levels(
        ntk: &'a Network,
        fanout_view: &'a FanoutView,
        po_levels_config: Option<&'a Vec<u32>>,
        count_buffer: Option<bool>,
    ) -> (levels: Vec<u32>)
        requires
            ntk@.wf(),
            fanout_view.is_view_of(ntk@),
            table_fits(table_view(po_levels_config), ntk@.outputs.len(), ntk@.nodes.len()),
        ensures
            is_reverse_levels(ntk@, table_view(po_levels_config), count_buffer != Some(false), levels@),
    {
        let cb = match count_buffer {
            Some(b) => b,
            None => true,
        };
        let mut builder = ReverseLevelViewBuilder {
            ntk,
            fanout_view,
            po_levels: po_levels_config,
            count_buffer: cb,
            visited: visited_new(),
        };
        builder.build()
    }
}

/// `levels` holds, for every node, its reverse level if the node is driven
/// and zero if it is not.
pub open spec fn is_reverse_levels(
    net: NetworkView,
    required: Option<Seq<u32>>,
    count_buffer: bool,
    levels: Seq<u32>,
) -> bool {
    &&& levels.len() == net.nodes.len()
    &&& forall|i: int|
        0 <= i < levels.len() ==> #[trigger] levels[i] == if net.driven(i) {
            reverse_level(net, required, count_buffer, i)
        } else {
            0
        }
}

/// The reverse levels of the nodes of `ntk`, nothing being required of the
/// outputs.
pub fn compute_reverse_levels(ntk: &Network, count_buffer: bool) -> (levels: Vec<u32>)
    requires
        ntk@.wf(),
    ensures
        is_reverse_levels(ntk@, None, count_buffer, levels@),
{
    let view = FanoutView::new(ntk);
    ReverseLevelViewBuilder::compute_levels(ntk, &view, None, Some(count_buffer))
}

/// The level that a level vector and a table give to a signal: the entry
/// of its node, the table's level of its input, zero for a constant.
pub open spec fn entry_level(levels: Seq<u32>, table: Option<Seq<u32>>, s: Signal) -> nat {
    match s.source {
        Source::Constant => 0,
        Source::Input(p) => table_level(table, p as int),
        Source::Node(j) => levels[j as int] as nat,
    }
}

/// In a vector of forward levels the entry of a live node is its increment
/// on top of the largest level among its fanins, read from the same vector
/// for node fanins: no fanin lies above it, and unless no fanin
/// contributes, one of them reaches it.
pub proof fn lemma_forward_levels_agree(
    net: NetworkView,
    arrivals: Option<Seq<u32>>,
    count_buffer: bool,
    levels: Seq<u32>,
    i: int,
)
    requires
        net.wf(),
        is_forward_levels(net, arrivals, count_buffer, levels),
        net.live(i),
    ensures
        forall|k: int|
            0 <= k < net.nodes[i].deps.len() ==> entry_level(levels, arrivals, #[trigger] net.nodes[i].deps[k])
                + net.nodes[i].increment(count_buffer) <= levels[i],
        levels[i] == net.nodes[i].increment(count_buffer) || exists|k: int|
            0 <= k < net.nodes[i].deps.len() && entry_level(levels, arrivals, #[trigger] net.nodes[i].deps[k])
                + net.nodes[i].increment(count_buffer) == levels[i],
{
    let deps = net.nodes[i].deps;
    lemma_forward_level_is_max(net, arrivals, count_buffer, i, deps.len() as int);
    assert(levels[i] == forward_level(net, arrivals, count_buffer, i));
    assert forall|k: int| 0 <= k < deps.len() implies entry_level(levels, arrivals, #[trigger] deps[k])
        == signal_level(net, arrivals, count_buffer, deps[k].source) by {
        assert(valid_signal(net.nodes[i].deps[k], net.nb_inputs, i));
        if let Source::Node(j) = deps[k].source {
            assert(net.reads(i, Source::Node(j)));
            assert(net.live(j as int));
            assert(levels[j as int] == forward_level(net, arrivals, count_buffer, j as int));
        }
    }
    let top = fanin_max(net, arrivals, count_buffer, i, deps.len() as int);
    if top != 0 {
        let m = choose|m: int|
            0 <= m < deps.len() && signal_level(net, arrivals, count_buffer, #[trigger] net.nodes[i].deps[m].source)
                == top;
        assert(entry_level(levels, arrivals, net.nodes[i].deps[m]) + net.nodes[i].increment(count_buffer)
            == levels[i]);
    }
}

/// In a vector of reverse levels the entry of a driven node is its
/// increment on top of the largest among the level required of it and the
/// entries of the nodes that read it: none of these lies above it, and one
/// of them reaches it.
pub proof fn lemma_reverse_levels_agree(
    net: NetworkView,
    required: Option<Seq<u32>>,
    count_buffer: bool,
    levels: Seq<u32>,
    i: int,
)
    requires
        net.wf(),
        is_reverse_levels(net, required, count_buffer, levels),
        net.driven(i),
    ensures
        required_level(net, required, Source::Node(i as u32)) + net.nodes[i].increment(count_buffer) <= levels[i],
        forall|r: int|
            0 <= r < net.nodes.len() && #[trigger] net.reads(r, Source::Node(i as u32)) ==> levels[r]
                + net.nodes[i].increment(count_buffer) <= levels[i],
        levels[i] == required_level(net, required, Source::Node(i as u32)) + net.nodes[i].increment(count_buffer)
            || exists|r: int|
            0 <= r < net.nodes.len() && #[trigger] net.reads(r, Source::Node(i as u32)) && levels[r]
                + net.nodes[i].increment(count_buffer) == levels[i],
{
    let src = Source::Node(i as u32);
    lemma_reader_max_is_max(net, required, count_buffer, src, i + 1);
    assert(levels[i] == reverse_level(net, required, count_buffer, i));
    assert forall|r: int| 0 <= r < net.nodes.len() && #[trigger] net.reads(r, src) implies i < r && levels[r]
        == reverse_level(net, required, count_buffer, r) by {
        let k = choose|k: int| 0 <= k < net.nodes[r].deps.len() && #[trigger] net.nodes[r].deps[k].source == src;
        assert(valid_signal(net.nodes[r].deps[k], net.nb_inputs, r));
        assert(net.driven(r));
    }
    let top = reader_max(net, required, count_buffer, src, i + 1);
    if top != required_level(net, required, src) {
        let r = choose|r: int|
            i + 1 <= r < net.nodes.len() && #[trigger] net.reads(r, src) && reverse_level(
                net,
                required,
                count_buffer,
                r,
            ) == top;
        assert(net.reads(r, src) && levels[r] + net.nodes[i].increment(count_buffer) == levels[i]);
    }
}

} // verus!
