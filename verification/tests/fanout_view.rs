use quaigh::utils::FanoutView;
use quaigh::{Gate, NaryType, Network, Signal};

fn is_sorted(v: &[u32]) -> bool {
    v.windows(2).all(|w| w[0] <= w[1])
}

fn verify_fanout_view(fanout_view: &FanoutView, ntk: &Network) {
    assert_eq!(fanout_view.pi_fanout.len(), ntk.nb_inputs());
    assert_eq!(fanout_view.node_fanout.len(), ntk.nb_nodes());

    assert!(
        fanout_view.pi_fanout.iter().all(|v| is_sorted(v)),
        "PI fanouts are not sorted"
    );
    assert!(
        fanout_view.node_fanout.iter().all(|v| is_sorted(v)),
        "Node fanouts are not sorted"
    );

    for pi in 0..ntk.nb_inputs() {
        for &node in fanout_view.fanouts(ntk.input(pi)) {
            assert!(
                ntk.gate(node as usize)
                    .dependencies()
                    .iter()
                    .any(|s| s.is_input() && s.input() == pi as u32),
                "Node {node} is not a fanout of Input {pi}"
            );
        }
    }
    for i in 0..ntk.nb_nodes() {
        for &fanout in fanout_view.fanouts(ntk.node(i)) {
            assert!(
                ntk.gate(fanout as usize)
                    .dependencies()
                    .iter()
                    .any(|s| s.is_var() && s.var() == i as u32),
                "Node {fanout} is not a fanout of node {i}"
            );
        }
    }
    for i in 0..ntk.nb_nodes() {
        for s in ntk.gate(i).dependencies() {
            if !s.is_constant() {
                assert!(fanout_view.fanouts(s).contains(&(i as u32)));
            }
        }
    }
}

#[test]
fn test_fanout_view() {
    let mut aig = Network::default();
    let x1 = aig.add_input();
    let x2 = aig.add_input();
    let x3 = aig.add_input();
    let x4 = aig.add_input();

    let f1 = aig.and(x1, x2);
    let f2 = aig.and(x3, x4);
    let f3 = aig.and(x1, x3);
    let f4 = aig.and(f1, f2);
    let f5 = aig.and(f3, f4);

    aig.add_output(f5);

    let fanout_view = FanoutView::new(&aig);
    assert_eq!(fanout_view.pi_fanout[0], vec![0, 2]);
    assert_eq!(fanout_view.pi_fanout[1], vec![0]);
    assert_eq!(fanout_view.pi_fanout[2], vec![1, 2]);
    assert_eq!(fanout_view.pi_fanout[3], vec![1]);
    assert_eq!(fanout_view.node_fanout[0], vec![3]);
    assert_eq!(fanout_view.node_fanout[1], vec![3]);
    assert_eq!(fanout_view.node_fanout[2], vec![4]);
    assert_eq!(fanout_view.node_fanout[3], vec![4]);
    assert_eq!(fanout_view.node_fanout[4], vec![]);

    verify_fanout_view(&fanout_view, &aig);
}

#[test]
fn fanouts_ignore_polarity_and_skip_constants() {
    let mut aig = Network::new();
    let a = aig.add_input();
    let b = aig.add_input();
    let f = aig.and(!a, Signal::one());
    let g = aig.add(Gate::Nary(vec![!f, a, !f, Signal::zero()], NaryType::Xor));
    let h = aig.add(Gate::Dff(!g));
    aig.add_output(h);
    let view = FanoutView::new(&aig);
    assert_eq!(view.fanouts(a), &[0, 1]);
    assert_eq!(view.fanouts(!a), &[0, 1]);
    assert_eq!(view.fanouts(b), &[] as &[u32]);
    assert_eq!(view.fanouts(f), &[1, 1]);
    assert_eq!(view.fanouts(!g), &[2]);
    assert_eq!(view.fanouts(h), &[] as &[u32]);
    assert_eq!(view.fanouts(Signal::zero()), &[] as &[u32]);
    assert_eq!(view.fanouts(Signal::one()), &[] as &[u32]);
    verify_fanout_view(&view, &aig);
}

#[test]
fn fanout_view_of_empty_network() {
    let aig = Network::new();
    let view = FanoutView::new(&aig);
    assert!(view.pi_fanout.is_empty());
    assert!(view.node_fanout.is_empty());
    assert_eq!(view.fanouts(Signal::zero()), &[] as &[u32]);
}
