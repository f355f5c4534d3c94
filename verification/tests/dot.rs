use quaigh::io::dot::{gate_type_label, is_printable, signal_source_id};
use quaigh::io::write_dot;
use quaigh::{BinaryType, Gate, Lut, NaryType, Network, Signal, TernaryType};

#[test]
fn test_write_dot_basic() {
    let mut aig = Network::default();
    let x1 = aig.add_input();
    let x2 = aig.add_input();
    let x3 = aig.add_input();
    let x4 = aig.add_input();

    let f1 = aig.and(x1, x2);
    let f2 = aig.and(x3, x4);
    let f3 = aig.and(x1, x3);
    let f4 = aig.and(f1, f2);
    let f5 = aig.and(f3, f4);

    aig.add_output(f5);
    aig.add_output(!f5);

    let mut dot = String::new();
    write_dot(&mut dot, &aig);

    assert!(dot.contains("digraph network"));
    assert!(dot.contains("shape=triangle"));
    assert!(dot.contains("shape=invtriangle"));
    assert!(dot.contains("And2"));
    assert!(dot.contains("style=dashed"));
}

#[test]
fn write_dot_gives_the_whole_graph() {
    let mut aig = Network::new();
    let a = aig.add_input();
    let w = aig.add(Gate::Buf(!a));
    let f = aig.and(w, !a);
    aig.add_output(!w);
    aig.add_output(Signal::one());
    let _ = f;
    let mut dot = String::from("// graph\n");
    write_dot(&mut dot, &aig);
    let expected = vec![
        "// graph",
        "digraph network {",
        "    rankdir=TB;",
        "    node [fontname=\"Helvetica\"];",
        "    edge [fontname=\"Helvetica\"];",
        "",
        "    // Constant nodes",
        "    const_1 [label=\"1\" shape=plaintext fontsize=14];",
        "",
        "    // Primary inputs",
        "    subgraph cluster_inputs {",
        "        rank=source;",
        "        style=invis;",
        "        input_0 [label=\"i0\" shape=invtriangle style=filled fillcolor=\"#90EE90\"];",
        "    }",
        "",
        "    // Internal nodes",
        "    node_0 [label=\"n0\\nBuf\" shape=ellipse];",
        "    node_1 [label=\"n1\\nAnd2\" shape=ellipse];",
        "",
        "    // Primary outputs",
        "    subgraph cluster_outputs {",
        "        rank=sink;",
        "        style=invis;",
        "        output_0 [label=\"o0\" shape=triangle style=filled fillcolor=\"#FFB6C1\"];",
        "        output_1 [label=\"o1\" shape=triangle style=filled fillcolor=\"#FFB6C1\"];",
        "    }",
        "",
        "    // Edges",
        "    input_0 -> node_0 [style=dashed];",
        "    node_0 -> node_1 [];",
        "    input_0 -> node_1 [ style=dashed];",
        "",
        "    // Output edges",
        "    node_0 -> output_0 [style=dashed];",
        "    const_0 -> output_1 [style=dashed];",
        "}",
        "",
    ]
    .join("\n");
    assert_eq!(dot, expected);
}

#[test]
fn write_dot_of_empty_network() {
    let aig = Network::new();
    let mut dot = String::new();
    write_dot(&mut dot, &aig);
    assert!(dot.starts_with("digraph network {\n    rankdir=TB;\n"));
    assert!(!dot.contains("Constant nodes"));
    assert!(dot.contains("    // Internal nodes\n\n    // Primary outputs\n"));
    assert!(dot.ends_with("    // Output edges\n}\n"));
}

#[test]
fn write_dot_declares_both_constants() {
    let mut aig = Network::new();
    let a = aig.add_input();
    let f = aig.and(a, Signal::zero());
    aig.add_output(f);
    aig.add_output(Signal::one());
    let mut dot = String::new();
    write_dot(&mut dot, &aig);
    assert!(dot.contains("    const_0 [label=\"0\" shape=plaintext fontsize=14];\n    const_1 [label=\"1\" shape=plaintext fontsize=14];\n\n"));
    assert!(dot.contains("    const_0 -> node_0 [];\n"));
}

#[test]
fn gate_labels() {
    let a = Signal::from_input(0);
    let b = Signal::from_input(1);
    let c = Signal::from_input(2);
    assert_eq!(gate_type_label(&Gate::Binary([a, b], BinaryType::And)), "And2");
    assert_eq!(gate_type_label(&Gate::Binary([a, b], BinaryType::Xor)), "Xor2");
    assert_eq!(gate_type_label(&Gate::Ternary([a, b, c], TernaryType::And)), "And3");
    assert_eq!(gate_type_label(&Gate::Ternary([a, b, c], TernaryType::Xor)), "Xor3");
    assert_eq!(gate_type_label(&Gate::Ternary([a, b, c], TernaryType::Mux)), "Mux");
    assert_eq!(gate_type_label(&Gate::Ternary([a, b, c], TernaryType::Maj)), "Maj");
    assert_eq!(gate_type_label(&Gate::Nary(vec![], NaryType::And)), "And0");
    assert_eq!(gate_type_label(&Gate::Nary(vec![a; 12], NaryType::Or)), "Or12");
    assert_eq!(gate_type_label(&Gate::Nary(vec![a; 3], NaryType::Nand)), "Nand3");
    assert_eq!(gate_type_label(&Gate::Nary(vec![a; 105], NaryType::Nor)), "Nor105");
    assert_eq!(gate_type_label(&Gate::Nary(vec![a, b], NaryType::Xor)), "Xor2");
    assert_eq!(gate_type_label(&Gate::Nary(vec![a], NaryType::Xnor)), "Xnor1");
    assert_eq!(gate_type_label(&Gate::Buf(a)), "Buf");
    assert_eq!(gate_type_label(&Gate::Dff(!a)), "Dff");
}

#[test]
fn lut_label_shows_the_truth_table_in_hex() {
    let a = Signal::from_input(0);
    let b = Signal::from_input(1);
    let xor = Lut::new(vec![a, b], vec![false, true, true, false]).unwrap();
    assert_eq!(xor.num_vars(), 2);
    assert!(xor.value(1) && !xor.value(3));
    assert_eq!(gate_type_label(&Gate::Lut(xor)), "Lut2\\n0x6");
    let mut table = vec![false; 16];
    for i in [1, 3, 4, 5, 7, 9, 10, 11, 15] {
        table[i] = true;
    }
    let wide = Lut::new(vec![a, b, !a, !b], table).unwrap();
    assert_eq!(gate_type_label(&Gate::Lut(wide)), "Lut4\\n0x8EBA");
    let none = Lut::new(vec![], vec![false]).unwrap();
    assert_eq!(gate_type_label(&Gate::Lut(none)), "Lut0\\n0x0");
    let full = Lut::new(vec![a; 6], vec![true; 64]).unwrap();
    assert_eq!(gate_type_label(&Gate::Lut(full)), "Lut6\\n0xFFFFFFFFFFFFFFFF");
}

#[test]
fn lut_needs_one_bit_per_assignment() {
    let a = Signal::from_input(0);
    assert!(Lut::new(vec![a], vec![true]).is_none());
    assert!(Lut::new(vec![a], vec![true, false, true]).is_none());
    assert!(Lut::new(vec![], vec![]).is_none());
    assert!(Lut::new(vec![a], vec![true, false]).is_some());
    assert!(Lut::new(vec![a; 70], vec![true; 64]).is_none());
}

#[test]
fn source_identifiers() {
    assert_eq!(signal_source_id(&Signal::zero()), "const_0");
    assert_eq!(signal_source_id(&Signal::one()), "const_1");
    assert_eq!(signal_source_id(&Signal::from_input(0)), "input_0");
    assert_eq!(signal_source_id(&!Signal::from_input(4294967295)), "input_4294967295");
    assert_eq!(signal_source_id(&Signal::from_var(10)), "node_10");
    assert_eq!(signal_source_id(&!Signal::from_var(907)), "node_907");
}

#[test]
fn wide_tables_are_not_printable() {
    let mut aig = Network::new();
    let a = aig.add_input();
    let small = Lut::new(vec![a; 6], vec![false; 64]).unwrap();
    aig.add(Gate::Lut(small));
    assert!(is_printable(&aig));
    let wide = Lut::new(vec![a; 7], vec![false; 128]).unwrap();
    aig.add(Gate::Lut(wide));
    assert!(!is_printable(&aig));
}
