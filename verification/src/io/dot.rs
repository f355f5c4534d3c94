//! Networks in the DOT graph language.
//!
//! Inverted edges are dashed, every node is labelled with its function,
//! inputs are drawn as triangles pointing down and outputs as triangles
//! pointing up.

use crate::io::text::{decimal, hex_upper, push_decimal, push_hex, push_str};
use crate::network::gates::{BinaryType, Gate, GateKind, GateView, NaryType, TernaryType};
use crate::network::model::NetworkView;
use crate::network::signal::{Signal, Source};
use crate::network::Network;
use vstd::arithmetic::power2::{lemma2_to64, lemma_pow2_strictly_increases, lemma_pow2_unfold, pow2};
use vstd::prelude::*;

verus! {

/// The number whose binary digits, least significant first, are the bits
/// of `bits` from index `i` on.
pub open spec fn table_value(bits: Seq<bool>, i: int) -> nat
    decreases bits.len() - i,
{
    if i < 0 || i >= bits.len() {
        0
    } else {
        (if bits[i] {
            1nat
        } else {
            0nat
        }) + 2 * table_value(bits, i + 1)
    }
}

/// The value of a truth table from bit `i` on takes no more binary digits
/// than there are bits.
pub proof fn lemma_table_value_bound(bits: Seq<bool>, i: int)
    requires
        0 <= i <= bits.len(),
    ensures
        table_value(bits, i) < pow2((bits.len() - i) as nat),
    decreases bits.len() - i,
{
    if i < bits.len() {
        lemma_table_value_bound(bits, i + 1);
        lemma_pow2_unfold((bits.len() - i) as nat);
    } else {
        lemma2_to64();
    }
}

/// The name of a function of gates with any number of inputs.
pub open spec fn nary_name(t: NaryType) -> Seq<char> {
    match t {
        NaryType::And => "And"@,
        NaryType::Or => "Or"@,
        NaryType::Nand => "Nand"@,
        NaryType::Nor => "Nor"@,
        NaryType::Xor => "Xor"@,
        NaryType::Xnor => "Xnor"@,
    }
}

/// The label of a gate: its function, with the number of fanins where the
/// function leaves it open, and for a lookup table its truth table in
/// hexadecimal after a line break.
pub open spec fn gate_label(g: GateView) -> Seq<char> {
    match g.kind {
        GateKind::Binary(BinaryType::And) => "And2"@,
        GateKind::Binary(BinaryType::Xor) => "Xor2"@,
        GateKind::Ternary(TernaryType::And) => "And3"@,
        GateKind::Ternary(TernaryType::Xor) => "Xor3"@,
        GateKind::Ternary(TernaryType::Mux) => "Mux"@,
        GateKind::Ternary(TernaryType::Maj) => "Maj"@,
        GateKind::Nary(t) => nary_name(t) + decimal(g.deps.len()),
        GateKind::Buf => "Buf"@,
        GateKind::Dff => "Dff"@,
        GateKind::Lut(t) => "Lut"@ + decimal(g.deps.len()) + "\\n0x"@ + hex_upper(table_value(t, 0)),
    }
}

/// A gate can be labelled when the value of its truth table, if it has
/// one, fits in 64 bits.
pub open spec fn labelable(g: GateView) -> bool {
    match g.kind {
        GateKind::Lut(t) => t.len() <= 64,
        _ => true,
    }
}

/// The identifier of the graph node that stands for the source of `s`.
pub open spec fn source_id(s: Signal) -> Seq<char> {
    match s.source {
        Source::Constant => if s.inverted {
            "const_1"@
        } else {
            "const_0"@
        },
        Source::Input(p) => "input_"@ + decimal(p as nat),
        Source::Node(j) => "node_"@ + decimal(j as nat),
    }
}

/// A node or an output of the network reads exactly the signal `s`.
pub open spec fn uses(net: NetworkView, s: Signal) -> bool {
    ||| exists|i: int, k: int|
        0 <= i < net.nodes.len() && 0 <= k < net.nodes[i].deps.len() && #[trigger] net.nodes[i].deps[k] == s
    ||| exists|k: int| 0 <= k < net.outputs.len() && #[trigger] net.outputs[k] == s
}

pub open spec fn header_text() -> Seq<char> {
    "digraph network {\n    rankdir=TB;\n    node [fontname=\"Helvetica\"];\n    edge [fontname=\"Helvetica\"];\n\n"@
}

/// The declarations of the constants that the network uses.
pub open spec fn constants_text(net: NetworkView) -> Seq<char> {
    let zero = uses(net, Signal { source: Source::Constant, inverted: false });
    let one = uses(net, Signal { source: Source::Constant, inverted: true });
    if zero && one {
        "    // Constant nodes\n    const_0 [label=\"0\" shape=plaintext fontsize=14];\n    const_1 [label=\"1\" shape=plaintext fontsize=14];\n\n"@
    } else if zero {
        "    // Constant nodes\n    const_0 [label=\"0\" shape=plaintext fontsize=14];\n\n"@
    } else if one {
        "    // Constant nodes\n    const_1 [label=\"1\" shape=plaintext fontsize=14];\n\n"@
    } else {
        Seq::empty()
    }
}

pub open spec fn input_line(i: nat) -> Seq<char> {
    "        input_"@ + decimal(i) + " [label=\"i"@ + decimal(i)
        + "\" shape=invtriangle style=filled fillcolor=\"#90EE90\"];\n"@
}

pub open spec fn input_lines(k: nat) -> Seq<char>
    decreases k,
{
    if k == 0 {
        Seq::empty()
    } else {
        input_lines((k - 1) as nat) + input_line((k - 1) as nat)
    }
}

pub open spec fn inputs_text(net: NetworkView) -> Seq<char> {
    "    // Primary inputs\n    subgraph cluster_inputs {\n        rank=source;\n        style=invis;\n"@
        + input_lines(net.nb_inputs) + "    }\n\n"@
}

pub open spec fn shape_text(g: GateView) -> Seq<char> {
    if g.kind is Dff {
        "box"@
    } else {
        "ellipse"@
    }
}

pub open spec fn node_line(net: NetworkView, i: int) -> Seq<char> {
    "    node_"@ + decimal(i as nat) + " [label=\"n"@ + decimal(i as nat) + "\\n"@ + gate_label(net.nodes[i])
        + "\" shape="@ + shape_text(net.nodes[i]) + "];\n"@
}

pub open spec fn node_lines(net: NetworkView, k: int) -> Seq<char>
    decreases k,
{
    if k <= 0 {
        Seq::empty()
    } else {
        node_lines(net, k - 1) + node_line(net, k - 1)
    }
}

pub open spec fn nodes_text(net: NetworkView) -> Seq<char> {
    "    // Internal nodes\n"@ + node_lines(net, net.nodes.len() as int) + "\n"@
}

pub open spec fn output_line(i: nat) -> Seq<char> {
    "        output_"@ + decimal(i) + " [label=\"o"@ + decimal(i)
        + "\" shape=triangle style=filled fillcolor=\"#FFB6C1\"];\n"@
}

pub open spec fn output_lines(k: nat) -> Seq<char>
    decreases k,
{
    if k == 0 {
        Seq::empty()
    } else {
        output_lines((k - 1) as nat) + output_line((k - 1) as nat)
    }
}

pub open spec fn outputs_text(net: NetworkView) -> Seq<char> {
    "    // Primary outputs\n    subgraph cluster_outputs {\n        rank=sink;\n        style=invis;\n"@
        + output_lines(net.outputs.len()) + "    }\n\n"@
}

/// The attributes of the edge from `s` into a gate with `arity` fanins.
pub open spec fn edge_label(s: Signal, arity: nat) -> Seq<char> {
    if arity > 1 {
        if s.inverted {
            " [ style=dashed]"@
        } else {
            " []"@
        }
    } else {
        if s.inverted {
            " [style=dashed]"@
        } else {
            ""@
        }
    }
}

/// The edge into node `i` from its fanin `k`. The edge starts at the node
/// that stands for the fanin with its polarity cleared.
pub open spec fn edge_line(net: NetworkView, i: int, k: int) -> Seq<char> {
    let s = net.nodes[i].deps[k];
    "    "@ + source_id(Signal { source: s.source, inverted: false }) + " -> node_"@ + decimal(i as nat) + edge_label(
        s,
        net.nodes[i].deps.len(),
    ) + ";\n"@
}

pub open spec fn fanin_edges(net: NetworkView, i: int, k: int) -> Seq<char>
    decreases k,
{
    if k <= 0 {
        Seq::empty()
    } else {
        fanin_edges(net, i, k - 1) + edge_line(net, i, k - 1)
    }
}

pub open spec fn edge_lines(net: NetworkView, i: int) -> Seq<char>
    decreases i,
{
    if i <= 0 {
        Seq::empty()
    } else {
        edge_lines(net, i - 1) + fanin_edges(net, i - 1, net.nodes[i - 1].deps.len() as int)
    }
}

pub open spec fn edges_text(net: NetworkView) -> Seq<char> {
    "    // Edges\n"@ + edge_lines(net, net.nodes.len() as int) + "\n"@
}

pub open spec fn output_edge_line(net: NetworkView, k: int) -> Seq<char> {
    let s = net.outputs[k];
    "    "@ + source_id(Signal { source: s.source, inverted: false }) + " -> output_"@ + decimal(k as nat) + edge_label(
        s,
        1,
    ) + ";\n"@
}

pub open spec fn output_edge_lines(net: NetworkView, k: int) -> Seq<char>
    decreases k,
{
    if k <= 0 {
        Seq::empty()
    } else {
        output_edge_lines(net, k - 1) + output_edge_line(net, k - 1)
    }
}

pub open spec fn output_edges_text(net: NetworkView) -> Seq<char> {
    "    // Output edges\n"@ + output_edge_lines(net, net.outputs.len() as int) + "}\n"@
}

/// The whole graph: header, constants, inputs, nodes, outputs, the edges
/// into the nodes and the edges into the outputs.
pub open spec fn dot_text(net: NetworkView) -> Seq<char> {
    header_text() + constants_text(net) + inputs_text(net) + nodes_text(net) + outputs_text(net) + edges_text(net)
        + output_edges_text(net)
}

/// Every gate of the network can be labelled.
pub open spec fn printable(net: NetworkView) -> bool {
    forall|i: int| 0 <= i < net.nodes.len() ==> labelable(#[trigger] net.nodes[i])
}

/// Whether every gate of the network can be labelled.
pub fn is_printable(aig: &Network) -> (b: bool)
    ensures
        b == printable(aig@),
{
    let ghost net = aig@;
    let n = aig.nb_nodes();
    let mut i: usize = 0;
    while i < n
        invariant
            net == aig@,
            n == net.nodes.len(),
            i <= n,
            forall|j: int| 0 <= j < i ==> labelable(#[trigger] net.nodes[j]),
        decreases n - i,
    {
        match aig.gate(i) {
            Gate::Lut(lut) => {
                if lut.truth_table.len() > 64 {
                    assert(!labelable(net.nodes[i as int]));
                    return false;
                }
            },
            _ => {},
        }
        i += 1;
    }
    true
}

/// The value of a truth table of at most 64 bits.
fn table_number(bits: &Vec<bool>) -> (v: u64)
    requires
        bits@.len() <= 64,
    ensures
        v == table_value(bits@, 0),
{
    let mut v: u64 = 0;
    let mut i: usize = bits.len();
    while i > 0
        invariant
            i <= bits@.len() <= 64,
            v == table_value(bits@, i as int),
        decreases i,
    {
        proof {
            lemma_table_value_bound(bits@, i as int);
            lemma_table_value_bound(bits@, i - 1);
            lemma_pow2_unfold((bits@.len() - (i - 1)) as nat);
            lemma2_to64();
            if bits@.len() - (i - 1) < 64 {
                lemma_pow2_strictly_increases((bits@.len() - (i - 1)) as nat, 64);
            }
        }
        i -= 1;
        v = 2 * v + if bits[i] {
            1
        } else {
            0
        };
    }
    v
}

/// The label of `gate`.
pub fn gate_type_label(gate: &Gate) -> (label: String)
    requires
        labelable(gate@),
    ensures
        label@ == gate_label(gate@),
{
    match gate {
        Gate::Binary(_, BinaryType::And) => "And2".to_owned(),
        Gate::Binary(_, BinaryType::Xor) => "Xor2".to_owned(),
        Gate::Ternary(_, TernaryType::And) => "And3".to_owned(),
        Gate::Ternary(_, TernaryType::Xor) => "Xor3".to_owned(),
        Gate::Ternary(_, TernaryType::Mux) => "Mux".to_owned(),
        Gate::Ternary(_, TernaryType::Maj) => "Maj".to_owned(),
        Gate::Nary(v, tp) => {
            let name = match tp {
                NaryType::And => "And",
                NaryType::Or => "Or",
                NaryType::Nand => "Nand",
                NaryType::Nor => "Nor",
                NaryType::Xor => "Xor",
                NaryType::Xnor => "Xnor",
            };
            let mut label = name.to_owned();
            push_decimal(&mut label, v.len() as u64);
            label
        },
        Gate::Buf(_) => "Buf".to_owned(),
        Gate::Dff(_) => "Dff".to_owned(),
        Gate::Lut(lut) => {
            let value = table_number(&lut.truth_table);
            let mut label = "Lut".to_owned();
            push_decimal(&mut label, lut.fanins.len() as u64);
            push_str(&mut label, "\\n0x");
            push_hex(&mut label, value);
            label
        },
    }
}

/// The identifier of the graph node that stands for the source of `s`.
pub fn signal_source_id(s: &Signal) -> (id: String)
    ensures
        id@ == source_id(*s),
{
    if s.is_constant() {
        if s.is_inverted() {
            "const_1".to_owned()
        } else {
            "const_0".to_owned()
        }
    } else if s.is_input() {
        let mut id = "input_".to_owned();
        push_decimal(&mut id, s.input() as u64);
        id
    } else {
        let mut id = "node_".to_owned();
        push_decimal(&mut id, s.var() as u64);
        id
    }
}

/// Whether a node or an output of the network reads exactly `s`.
fn uses_signal(aig: &Network, s: Signal) -> (b: bool)
    ensures
        b == uses(aig@, s),
{
    let ghost net = aig@;
    let mut i: usize = 0;
    while i < aig.nb_nodes()
        invariant
            net == aig@,
            i <= net.nodes.len(),
            forall|a: int, k: int|
                0 <= a < i && 0 <= k < net.nodes[a].deps.len() ==> #[trigger] net.nodes[a].deps[k] != s,
        decreases net.nodes.len() - i,
    {
        let deps = aig.gate(i).dependencies();
        let mut k: usize = 0;
        while k < deps.len()
            invariant
                net == aig@,
                i < net.nodes.len(),
                k <= deps.len(),
                deps@ == net.nodes[i as int].deps,
                forall|m: int| 0 <= m < k ==> #[trigger] net.nodes[i as int].deps[m] != s,
            decreases deps.len() - k,
        {
            if deps[k] == s {
                assert(net.nodes[i as int].deps[k as int] == s);
                return true;
            }
            k += 1;
        }
        i += 1;
    }
    let mut po: usize = 0;
    while po < aig.nb_outputs()
        invariant
            net == aig@,
            po <= net.outputs.len(),
            forall|a: int, k: int|
                0 <= a < net.nodes.len() && 0 <= k < net.nodes[a].deps.len() ==> #[trigger] net.nodes[a].deps[k] != s,
            forall|k: int| 0 <= k < po ==> #[trigger] net.outputs[k] != s,
        decreases net.outputs.len() - po,
    {
        if aig.output(po) == s {
            assert(net.outputs[po as int] == s);
            return true;
        }
        po += 1;
    }
    false
}

fn push_constants(out: &mut String, aig: &Network)
    ensures
        final(out)@ == old(out)@ + constants_text(aig@),
{
    let zero = uses_signal(aig, Signal::zero());
    let one = uses_signal(aig, Signal::one());
    if zero && one {
        push_str(
            out,
            "    // Constant nodes\n    const_0 [label=\"0\" shape=plaintext fontsize=14];\n    const_1 [label=\"1\" shape=plaintext fontsize=14];\n\n",
        );
    } else if zero {
        push_str(out, "    // Constant nodes\n    const_0 [label=\"0\" shape=plaintext fontsize=14];\n\n");
    } else if one {
        push_str(out, "    // Constant nodes\n    const_1 [label=\"1\" shape=plaintext fontsize=14];\n\n");
    } else {
        assert(out@ =~= old(out)@ + Seq::<char>::empty());
    }
}

fn push_inputs(out: &mut String, aig: &Network)
    ensures
        final(out)@ == old(out)@ + inputs_text(aig@),
{
    let mut text =
        "    // Primary inputs\n    subgraph cluster_inputs {\n        rank=source;\n        style=invis;\n".to_owned();
    let ghost head = text@;
    let n = aig.nb_inputs();
    let mut i: usize = 0;
    assert(text@ =~= head + input_lines(0));
    while i < n
        invariant
            i <= n,
            text@ == head + input_lines(i as nat),
        decreases n - i,
    {
        let mut line = "        input_".to_owned();
        push_decimal(&mut line, i as u64);
        push_str(&mut line, " [label=\"i");
        push_decimal(&mut line, i as u64);
        push_str(&mut line, "\" shape=invtriangle style=filled fillcolor=\"#90EE90\"];\n");
        push_str(&mut text, line.as_str());
        assert(text@ =~= head + input_lines((i + 1) as nat));
        i += 1;
    }
    push_str(&mut text, "    }\n\n");
    push_str(out, text.as_str());
}

fn push_nodes(out: &mut String, aig: &Network)
    requires
        printable(aig@),
    ensures
        final(out)@ == old(out)@ + nodes_text(aig@),
{
    let ghost net = aig@;
    let mut text = "    // Internal nodes\n".to_owned();
    let ghost head = text@;
    let n = aig.nb_nodes();
    let mut i: usize = 0;
    assert(text@ =~= head + node_lines(net, 0));
    while i < n
        invariant
            net == aig@,
            printable(net),
            n == net.nodes.len(),
            i <= n,
            text@ == head + node_lines(net, i as int),
        decreases n - i,
    {
        let gate = aig.gate(i);
        let label = gate_type_label(gate);
        let shape = match gate {
            Gate::Dff(_) => "box",
            _ => "ellipse",
        };
        let mut line = "    node_".to_owned();
        push_decimal(&mut line, i as u64);
        push_str(&mut line, " [label=\"n");
        push_decimal(&mut line, i as u64);
        push_str(&mut line, "\\n");
        push_str(&mut line, label.as_str());
        push_str(&mut line, "\" shape=");
        push_str(&mut line, shape);
        push_str(&mut line, "];\n");
        push_str(&mut text, line.as_str());
        assert(text@ =~= head + node_lines(net, i + 1));
        i += 1;
    }
    push_str(&mut text, "\n");
    push_str(out, text.as_str());
}

fn push_outputs(out: &mut String, aig: &Network)
    ensures
        final(out)@ == old(out)@ + outputs_text(aig@),
{
    let mut text =
        "    // Primary outputs\n    subgraph cluster_outputs {\n        rank=sink;\n        style=invis;\n".to_owned();
    let ghost head = text@;
    let n = aig.nb_outputs();
    let mut i: usize = 0;
    assert(text@ =~= head + output_lines(0));
    while i < n
        invariant
            i <= n,
            text@ == head + output_lines(i as nat),
        decreases n - i,
    {
        let mut line = "        output_".to_owned();
        push_decimal(&mut line, i as u64);
        push_str(&mut line, " [label=\"o");
        push_decimal(&mut line, i as u64);
        push_str(&mut line, "\" shape=triangle style=filled fillcolor=\"#FFB6C1\"];\n");
        push_str(&mut text, line.as_str());
        assert(text@ =~= head + output_lines((i + 1) as nat));
        i += 1;
    }
    push_str(&mut text, "    }\n\n");
    push_str(out, text.as_str());
}

/// The attributes of the edge from `s` into a gate with `arity` fanins.
fn edge_label_str(s: Signal, arity: usize) -> (label: &'static str)
    ensures
        label@ == edge_label(s, arity as nat),
{
    if arity > 1 {
        if s.is_inverted() {
            " [ style=dashed]"
        } else {
            " []"
        }
    } else {
        if s.is_inverted() {
            " [style=dashed]"
        } else {
            ""
        }
    }
}

fn push_edges(out: &mut String, aig: &Network)
    ensures
        final(out)@ == old(out)@ + edges_text(aig@),
{
    let ghost net = aig@;
    let mut text = "    // Edges\n".to_owned();
    let ghost head = text@;
    let n = aig.nb_nodes();
    let mut i: usize = 0;
    assert(text@ =~= head + edge_lines(net, 0));
    while i < n
        invariant
            net == aig@,
            n == net.nodes.len(),
            i <= n,
            text@ == head + edge_lines(net, i as int),
        decreases n - i,
    {
        let deps = aig.gate(i).dependencies();
        let mut k: usize = 0;
        assert(text@ =~= head + (edge_lines(net, i as int) + fanin_edges(net, i as int, 0)));
        while k < deps.len()
            invariant
                net == aig@,
                i < n == net.nodes.len(),
                k <= deps.len(),
                deps@ == net.nodes[i as int].deps,
                text@ == head + (edge_lines(net, i as int) + fanin_edges(net, i as int, k as int)),
            decreases deps.len() - k,
        {
            let s = deps[k];
            let src = signal_source_id(&s.without_inversion());
            let mut line = "    ".to_owned();
            push_str(&mut line, src.as_str());
            push_str(&mut line, " -> node_");
            push_decimal(&mut line, i as u64);
            push_str(&mut line, edge_label_str(s, deps.len()));
            push_str(&mut line, ";\n");
            push_str(&mut text, line.as_str());
            assert(text@ =~= head + (edge_lines(net, i as int) + fanin_edges(net, i as int, k + 1)));
            k += 1;
        }
        i += 1;
    }
    push_str(&mut text, "\n");
    push_str(out, text.as_str());
}

fn push_output_edges(out: &mut String, aig: &Network)
    ensures
        final(out)@ == old(out)@ + output_edges_text(aig@),
{
    let ghost net = aig@;
    let mut text = "    // Output edges\n".to_owned();
    let ghost head = text@;
    let n = aig.nb_outputs();
    let mut i: usize = 0;
    assert(text@ =~= head + output_edge_lines(net, 0));
    while i < n
        invariant
            net == aig@,
            n == net.outputs.len(),
            i <= n,
            text@ == head + output_edge_lines(net, i as int),
        decreases n - i,
    {
        let s = aig.output(i);
        let src = signal_source_id(&s.without_inversion());
        let mut line = "    ".to_owned();
        push_str(&mut line, src.as_str());
        push_str(&mut line, " -> output_");
        push_decimal(&mut line, i as u64);
        push_str(&mut line, edge_label_str(s, 1));
        push_str(&mut line, ";\n");
        push_str(&mut text, line.as_str());
        assert(text@ =~= head + output_edge_lines(net, i + 1));
        i += 1;
    }
    push_str(&mut text, "}\n");
    push_str(out, text.as_str());
}

/// Appends to `w` the network as a graph in the DOT language.
pub fn write_dot(w: &mut String, aig: &Network)
    requires
        printable(aig@),
    ensures
        final(w)@ == old(w)@ + dot_text(aig@),
{
    let mut text =
        "digraph network {\n    rankdir=TB;\n    node [fontname=\"Helvetica\"];\n    edge [fontname=\"Helvetica\"];\n\n".to_owned();
    push_constants(&mut text, aig);
    push_inputs(&mut text, aig);
    push_nodes(&mut text, aig);
    push_outputs(&mut text, aig);
    push_edges(&mut text, aig);
    push_output_edges(&mut text, aig);
    push_str(w, text.as_str());
}

} // verus!
