//! Replacing a node by a signal that computes the same function.

use crate::network::gates::{GateKind, GateView};
use crate::network::model::{valid_signal, NetworkView};
use crate::network::{Gate, Network, Signal};
use vstd::prelude::*;

verus! {

/// Turns node `node` into a forwarding wire to `new_signal`. The node keeps
/// its index, so every reference to it now observes `new_signal`.
pub fn substitute_node(ntk: &mut Network, node: usize, new_signal: Signal)
    requires
        old(ntk)@.wf(),
        node < old(ntk)@.nodes.len(),
        valid_signal(new_signal, old(ntk)@.nb_inputs, node as int),
    ensures
        final(ntk)@ == (NetworkView {
            nodes: old(ntk)@.nodes.update(
                node as int,
                GateView { kind: GateKind::Buf, deps: seq![new_signal] },
            ),
            ..old(ntk)@
        }),
        final(ntk)@.wf(),
{
    ntk.replace(node, Gate::Buf(new_signal));
}

} // verus!
