use quaigh::optim::substitute_node;
use quaigh::{Gate, Network, Signal};

#[test]
fn test_substitute_node_1() {
    let mut aig = Network::default();
    let x1 = aig.add_input();
    let x2 = aig.add_input();
    let x3 = aig.add_input();
    let x4 = aig.add_input();

    let f1 = aig.and(x1, x2);
    let f2 = aig.and(x3, x4);
    let f3 = aig.and(x1, x3);
    let f4 = aig.and(f1, f2);
    let f5 = aig.and(f3, f4);

    aig.add_output(f5);
    assert_eq!(aig.nb_nodes(), 5);

    substitute_node(&mut aig, f2.var() as usize, x3);
    aig.make_canonical();
    assert_eq!(aig.nb_nodes(), 4);
}

#[test]
fn test_substitute_node_2() {
    let mut aig = Network::default();
    let x1 = aig.add_input();
    let x2 = aig.add_input();
    let x3 = aig.add_input();
    let x4 = aig.add_input();

    let f1 = aig.and(x1, x2);
    let f2 = aig.and(x3, x4);
    let f3 = aig.and(x1, x3);
    let f4 = aig.and(f1, f2);
    let f5 = aig.and(f3, f4);

    aig.add_output(f5);
    assert_eq!(aig.nb_nodes(), 5);

    substitute_node(&mut aig, f5.var() as usize, f3);
    aig.make_canonical();
    aig.cleanup();
    assert_eq!(aig.nb_nodes(), 1);
}

#[test]
fn substitute_keeps_index_and_size() {
    let mut aig = Network::new();
    let a = aig.add_input();
    let b = aig.add_input();
    let f = aig.and(a, b);
    let g = aig.and(f, !a);
    aig.add_output(g);
    substitute_node(&mut aig, f.var() as usize, !b);
    assert_eq!(aig.nb_nodes(), 2);
    assert!(aig.gate(0).is_buf());
    assert_eq!(aig.gate(0).dependencies(), vec![!b]);
    assert_eq!(aig.gate(1).dependencies(), vec![f, !a]);
    assert_eq!(aig.output(0), g);
}

#[test]
fn canonical_composes_polarity_through_buffer_chain() {
    let mut aig = Network::new();
    let a = aig.add_input();
    let b = aig.add_input();
    let w1 = aig.add(Gate::Buf(!a));
    let w2 = aig.add(Gate::Buf(!w1));
    let w3 = aig.add(Gate::Buf(!w2));
    let f = aig.and(w3, !w2);
    aig.add_output(!f);
    aig.add_output(w1);
    aig.make_canonical();
    assert_eq!(aig.nb_nodes(), 1);
    assert_eq!(aig.gate(0).dependencies(), vec![!a, !a]);
    assert_eq!(aig.output(0), !Signal::from_var(0));
    assert_eq!(aig.output(1), !a);
    let _ = b;
}

#[test]
fn canonical_after_first_substitution_rewires_reader() {
    let mut aig = Network::new();
    let x1 = aig.add_input();
    let x2 = aig.add_input();
    let x3 = aig.add_input();
    let x4 = aig.add_input();
    let f1 = aig.and(x1, x2);
    let f2 = aig.and(x3, x4);
    let f3 = aig.and(x1, x3);
    let f4 = aig.and(f1, f2);
    let f5 = aig.and(f3, f4);
    aig.add_output(f5);
    substitute_node(&mut aig, f2.var() as usize, x3);
    aig.make_canonical();
    assert_eq!(aig.nb_inputs(), 4);
    assert_eq!(aig.nb_outputs(), 1);
    assert_eq!(aig.gate(0).dependencies(), vec![x1, x2]);
    assert_eq!(aig.gate(1).dependencies(), vec![x1, x3]);
    assert_eq!(aig.gate(2).dependencies(), vec![Signal::from_var(0), x3]);
    assert_eq!(
        aig.gate(3).dependencies(),
        vec![Signal::from_var(1), Signal::from_var(2)]
    );
    assert_eq!(aig.output(0), Signal::from_var(3));
}

#[test]
fn cleanup_drops_dead_nodes_and_keeps_order() {
    let mut aig = Network::new();
    let a = aig.add_input();
    let b = aig.add_input();
    let dead1 = aig.and(a, b);
    let keep1 = aig.and(a, !b);
    let dead2 = aig.and(dead1, keep1);
    let keep2 = aig.and(!keep1, b);
    aig.add_output(!keep2);
    aig.add_output(Signal::one());
    aig.add_output(a);
    let _ = dead2;
    aig.cleanup();
    assert_eq!(aig.nb_nodes(), 2);
    assert_eq!(aig.gate(0).dependencies(), vec![a, !b]);
    assert_eq!(aig.gate(1).dependencies(), vec![!Signal::from_var(0), b]);
    assert_eq!(aig.output(0), !Signal::from_var(1));
    assert_eq!(aig.output(1), Signal::one());
    assert_eq!(aig.output(2), a);
}

#[test]
fn cleanup_keeps_buffers_that_outputs_need() {
    let mut aig = Network::new();
    let a = aig.add_input();
    let w = aig.add(Gate::Buf(!a));
    aig.add_output(w);
    aig.cleanup();
    assert_eq!(aig.nb_nodes(), 1);
    assert!(aig.gate(0).is_buf());
    aig.make_canonical();
    assert_eq!(aig.nb_nodes(), 0);
    assert_eq!(aig.output(0), !a);
}

#[test]
fn canonical_and_cleanup_are_idempotent() {
    let mut aig = Network::new();
    let x1 = aig.add_input();
    let x2 = aig.add_input();
    let x3 = aig.add_input();
    let f1 = aig.and(x1, x2);
    let f2 = aig.add(Gate::Buf(!f1));
    let f3 = aig.and(f2, x3);
    let f4 = aig.and(x2, x3);
    aig.add_output(f3);
    let _ = f4;
    aig.make_canonical();
    let n = aig.nb_nodes();
    let deps: Vec<Vec<Signal>> = (0..n).map(|i| aig.gate(i).dependencies()).collect();
    let out = aig.output(0);
    assert_eq!(n, 2);
    aig.make_canonical();
    assert_eq!(aig.nb_nodes(), n);
    for i in 0..n {
        assert_eq!(aig.gate(i).dependencies(), deps[i]);
    }
    assert_eq!(aig.output(0), out);
    aig.cleanup();
    aig.cleanup();
    assert_eq!(aig.nb_nodes(), n);
    for i in 0..n {
        assert_eq!(aig.gate(i).dependencies(), deps[i]);
    }
    assert_eq!(aig.output(0), out);
}

#[test]
fn empty_network_stays_empty() {
    let mut aig = Network::default();
    assert_eq!(aig.nb_inputs(), 0);
    assert_eq!(aig.nb_nodes(), 0);
    assert_eq!(aig.nb_outputs(), 0);
    aig.make_canonical();
    aig.cleanup();
    assert_eq!(aig.nb_nodes(), 0);
}

#[test]
fn built_networks_are_acyclic() {
    let mut aig = Network::new();
    let a = aig.add_input();
    let b = aig.add_input();
    let f = aig.and(a, b);
    let g = aig.add(Gate::Nary(vec![f, !a, Signal::zero()], quaigh::NaryType::Or));
    let h = aig.add(Gate::Ternary([g, f, b], quaigh::TernaryType::Mux));
    aig.add_output(h);
    for i in 0..aig.nb_nodes() {
        for s in aig.gate(i).dependencies() {
            if s.is_var() {
                assert!((s.var() as usize) < i);
            } else if s.is_input() {
                assert!((s.input() as usize) < aig.nb_inputs());
            }
        }
    }
    assert_eq!(aig.node(2), h);
    assert_eq!(aig.input(1), b);
}

#[test]
fn signal_polarity_and_identity() {
    let s = Signal::from_var(3);
    assert!(s.is_var() && !s.is_input() && !s.is_constant());
    assert_eq!(s.var(), 3);
    assert!(!s.is_inverted());
    assert!((!s).is_inverted());
    assert_eq!(!!s, s);
    assert_ne!(!s, s);
    assert_eq!((!s).without_inversion(), s);
    assert_eq!(s.xor(true), !s);
    assert_eq!(s.xor(false), s);
    let i = Signal::from_input(7);
    assert!(i.is_input());
    assert_eq!(i.input(), 7);
    assert_eq!(!Signal::zero(), Signal::one());
    assert!(Signal::zero().is_constant() && Signal::one().is_constant());
    assert!(Signal::one().is_inverted());
}

#[test]
fn validity_of_signals() {
    let mut aig = Network::new();
    let a = aig.add_input();
    let f = aig.and(a, !a);
    assert!(aig.is_valid(a) && aig.is_valid(!f) && aig.is_valid(Signal::one()));
    assert!(!aig.is_valid(Signal::from_input(1)));
    assert!(!aig.is_valid(Signal::from_var(1)));
}

#[test]
fn replace_keeps_every_other_node_and_output() {
    let mut aig = Network::new();
    let a = aig.add_input();
    let b = aig.add_input();
    let f = aig.and(a, b);
    let g = aig.and(f, !b);
    aig.add_output(!g);
    aig.replace(1, Gate::Binary([!f, a], quaigh::BinaryType::Xor));
    assert_eq!(aig.nb_nodes(), 2);
    assert_eq!(aig.gate(0), &Gate::Binary([a, b], quaigh::BinaryType::And));
    assert_eq!(aig.gate(1), &Gate::Binary([!f, a], quaigh::BinaryType::Xor));
    assert_eq!(aig.output(0), !g);
}

#[test]
fn canonical_keeps_the_function_of_every_gate() {
    let mut aig = Network::new();
    let a = aig.add_input();
    let b = aig.add_input();
    let w = aig.add(Gate::Buf(!b));
    let lut = quaigh::Lut::new(vec![a, w], vec![true, false, false, true]).unwrap();
    let l = aig.add(Gate::Lut(lut));
    let d = aig.add(Gate::Dff(!l));
    let m = aig.add(Gate::Ternary([d, !w, a], quaigh::TernaryType::Mux));
    aig.add_output(m);
    aig.make_canonical();
    assert_eq!(aig.nb_nodes(), 3);
    let expected = quaigh::Lut::new(vec![a, !b], vec![true, false, false, true]).unwrap();
    assert_eq!(aig.gate(0), &Gate::Lut(expected));
    assert_eq!(aig.gate(1), &Gate::Dff(!Signal::from_var(0)));
    assert_eq!(
        aig.gate(2),
        &Gate::Ternary([Signal::from_var(1), b, a], quaigh::TernaryType::Mux)
    );
    assert_eq!(aig.output(0), Signal::from_var(2));
}

#[test]
fn network_accepts_only_backward_references() {
    let mut aig = Network::new();
    let a = aig.add_input();
    let f = aig.and(a, !a);
    let g = aig.and(f, a);
    assert!(aig.accepts(&Gate::Buf(!g), 2));
    assert!(aig.accepts(&Gate::Buf(f), 1));
    assert!(!aig.accepts(&Gate::Buf(g), 1));
    assert!(!aig.accepts(&Gate::Buf(f), 0));
    assert!(!aig.accepts(&Gate::Dff(Signal::from_input(1)), 2));
    assert!(aig.accepts(&Gate::Nary(vec![], quaigh::NaryType::Or), 0));
    let bad = Gate::Lut(quaigh::Lut { fanins: vec![a, f], truth_table: vec![true; 3] });
    assert!(!bad.is_well_formed());
    assert!(!aig.accepts(&bad, 2));
    let good = Gate::Lut(quaigh::Lut { fanins: vec![a, f], truth_table: vec![true; 4] });
    assert!(good.is_well_formed());
    assert!(aig.accepts(&good, 1));
    assert!(!aig.accepts(&good, 0));
}
