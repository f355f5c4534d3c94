use quaigh::utils::{
    compute_levels, compute_reverse_levels, table_is_usable, FanoutView, LevelViewBuilder,
    ReverseLevelViewBuilder,
};
use quaigh::{Gate, NaryType, Network, Signal};

#[test]
fn test_level_view() {
    let mut aig = Network::default();
    let x1 = aig.add_input();
    let x2 = aig.add_input();
    let x3 = aig.add_input();
    let x4 = aig.add_input();

    let f1 = aig.and(x1, x2);
    let f2 = aig.and(x3, x4);
    let f3 = aig.and(x1, x3);
    let f4 = aig.and(f1, f2);
    let f5 = aig.and(f3, f4);

    aig.add_output(f3);
    aig.add_output(!f5);

    let level_view = LevelViewBuilder::compute_levels(&aig, None, None);
    assert_eq!(level_view[0], 1);
    assert_eq!(level_view[1], 1);
    assert_eq!(level_view[2], 1);
    assert_eq!(level_view[3], 2);
    assert_eq!(level_view[4], 3);

    let level_view = LevelViewBuilder::compute_levels(&aig, Some(&vec![3, 2, 1, 0]), None);
    assert_eq!(level_view[0], 4);
    assert_eq!(level_view[1], 2);
    assert_eq!(level_view[2], 4);
    assert_eq!(level_view[3], 5);
    assert_eq!(level_view[4], 6);
}

#[test]
fn test_level_view_with_buffer() {
    let mut aig = Network::default();
    let x1 = aig.add_input();
    let x2 = aig.add_input();
    let x3 = aig.add_input();
    let x4 = aig.add_input();

    let f1 = aig.and(x1, x2);
    let f2 = aig.and(x3, x4);
    let f3 = aig.and(x1, x3);
    let f4 = aig.and(f2, f3);
    let f5 = aig.and(f1, f2);
    let fb = aig.add(Gate::Buf(f4));
    let f6 = aig.and(f5, fb);
    let f7 = aig.add(Gate::Buf(f6));

    aig.add_output(f7);

    let level_view = LevelViewBuilder::compute_levels(&aig, None, None);
    assert_eq!(level_view[0], 1);
    assert_eq!(level_view[1], 1);
    assert_eq!(level_view[2], 1);
    assert_eq!(level_view[3], 2);
    assert_eq!(level_view[4], 2);
    assert_eq!(level_view[5], 3);
    assert_eq!(level_view[6], 4);
    assert_eq!(level_view[7], 5);

    let level_view = LevelViewBuilder::compute_levels(&aig, None, Some(false));
    assert_eq!(level_view[0], 1);
    assert_eq!(level_view[1], 1);
    assert_eq!(level_view[2], 1);
    assert_eq!(level_view[3], 2);
    assert_eq!(level_view[4], 2);
    assert_eq!(level_view[5], 2);
    assert_eq!(level_view[6], 3);
    assert_eq!(level_view[7], 3);
}

#[test]
fn test_reverse_level_view() {
    let mut aig = Network::default();
    let x1 = aig.add_input();
    let x2 = aig.add_input();
    let x3 = aig.add_input();
    let x4 = aig.add_input();

    let f1 = aig.and(x1, x2);
    let f2 = aig.and(x3, x4);
    let f3 = aig.and(x1, x3);
    let f4 = aig.and(f1, f2);
    let f5 = aig.and(f3, f4);

    aig.add_output(f3);
    aig.add_output(!f5);

    let level_view =
        ReverseLevelViewBuilder::compute_levels(&aig, &FanoutView::new(&aig), None, None);
    assert_eq!(level_view[0], 3);
    assert_eq!(level_view[1], 3);
    assert_eq!(level_view[2], 2);
    assert_eq!(level_view[3], 2);
    assert_eq!(level_view[4], 1);

    let level_view = ReverseLevelViewBuilder::compute_levels(
        &aig,
        &FanoutView::new(&aig),
        Some(&vec![5, 1]),
        None,
    );

    assert_eq!(level_view[0], 4);
    assert_eq!(level_view[1], 4);
    assert_eq!(level_view[2], 6);
    assert_eq!(level_view[3], 3);
    assert_eq!(level_view[4], 2);
}

#[test]
fn test_reverse_level_view_with_buffer() {
    let mut aig = Network::default();
    let x1 = aig.add_input();
    let x2 = aig.add_input();
    let x3 = aig.add_input();
    let x4 = aig.add_input();

    let f1 = aig.and(x1, x2);
    let f2 = aig.and(x3, x4);
    let f3 = aig.and(x1, x3);
    let f4 = aig.and(f2, f3);
    let f5 = aig.and(f1, f2);
    let fb = aig.add(Gate::Buf(f4));
    let f6 = aig.and(f5, fb);
    let f7 = aig.add(Gate::Buf(f6));

    aig.add_output(f7);

    let level_view =
        ReverseLevelViewBuilder::compute_levels(&aig, &FanoutView::new(&aig), None, None);
    assert_eq!(level_view[0], 4);
    assert_eq!(level_view[1], 5);
    assert_eq!(level_view[2], 5);
    assert_eq!(level_view[3], 4);
    assert_eq!(level_view[4], 3);
    assert_eq!(level_view[5], 3);
    assert_eq!(level_view[6], 2);
    assert_eq!(level_view[7], 1);

    let level_view = ReverseLevelViewBuilder::compute_levels(
        &aig,
        &FanoutView::new(&aig),
        None,
        Some(false),
    );
    assert_eq!(level_view[0], 3);
    assert_eq!(level_view[1], 3);
    assert_eq!(level_view[2], 3);
    assert_eq!(level_view[3], 2);
    assert_eq!(level_view[4], 2);
    assert_eq!(level_view[5], 1);
    assert_eq!(level_view[6], 1);
    assert_eq!(level_view[7], 0);
}

fn base_network() -> Network {
    let mut aig = Network::new();
    let x1 = aig.add_input();
    let x2 = aig.add_input();
    let x3 = aig.add_input();
    let x4 = aig.add_input();
    let f1 = aig.and(x1, x2);
    let f2 = aig.and(x3, x4);
    let f3 = aig.and(x1, x3);
    let f4 = aig.and(f1, f2);
    let f5 = aig.and(f3, f4);
    aig.add_output(f3);
    aig.add_output(!f5);
    aig
}

#[test]
fn free_functions_agree_with_builders() {
    let aig = base_network();
    assert_eq!(compute_levels(&aig, true), vec![1, 1, 1, 2, 3]);
    assert_eq!(compute_levels(&aig, false), vec![1, 1, 1, 2, 3]);
    assert_eq!(compute_reverse_levels(&aig, true), vec![3, 3, 2, 2, 1]);
    assert_eq!(
        compute_levels(&aig, true),
        LevelViewBuilder::compute_levels(&aig, None, Some(true))
    );
}

#[test]
fn dead_nodes_get_level_zero() {
    let mut aig = Network::new();
    let a = aig.add_input();
    let b = aig.add_input();
    let f = aig.and(a, b);
    let dead = aig.and(f, a);
    let g = aig.and(f, !b);
    aig.add_output(g);
    aig.add_output(a);
    aig.add_output(Signal::one());
    let _ = dead;
    assert_eq!(compute_levels(&aig, true), vec![1, 0, 2]);
    assert_eq!(
        LevelViewBuilder::compute_levels(&aig, Some(&vec![10, 0]), None),
        vec![11, 0, 12]
    );
}

#[test]
fn undriven_nodes_get_reverse_level_zero() {
    let mut aig = Network::new();
    let a = aig.add_input();
    let c = aig.add(Gate::Nary(vec![], NaryType::And));
    let d = aig.add(Gate::Buf(Signal::one()));
    let e = aig.and(c, !d);
    let f = aig.and(a, e);
    aig.add_output(f);
    aig.add_output(e);
    assert_eq!(compute_reverse_levels(&aig, true), vec![0, 0, 0, 1]);
    assert_eq!(compute_levels(&aig, true), vec![1, 1, 2, 3]);
    assert_eq!(compute_levels(&aig, false), vec![1, 0, 2, 3]);
}

#[test]
fn level_is_one_more_than_largest_fanin_level() {
    let aig = base_network();
    let arrivals = vec![3, 2, 1, 0];
    let levels = LevelViewBuilder::compute_levels(&aig, Some(&arrivals), None);
    for i in 0..aig.nb_nodes() {
        let mut top = 0;
        for s in aig.gate(i).dependencies() {
            let l = if s.is_input() {
                arrivals[s.input() as usize]
            } else if s.is_var() {
                levels[s.var() as usize]
            } else {
                0
            };
            top = top.max(l);
        }
        assert_eq!(levels[i], top + 1);
    }
}

#[test]
fn reverse_level_is_one_more_than_largest_reader_level() {
    let aig = base_network();
    let view = FanoutView::new(&aig);
    let required = vec![5, 1];
    let levels = ReverseLevelViewBuilder::compute_levels(&aig, &view, Some(&required), None);
    for i in 0..aig.nb_nodes() {
        let mut top = 0;
        for po in 0..aig.nb_outputs() {
            let s = aig.output(po);
            if s.is_var() && s.var() as usize == i {
                top = required[po];
                break;
            }
        }
        for &r in view.fanouts(aig.node(i)) {
            top = top.max(levels[r as usize]);
        }
        assert_eq!(levels[i], top + 1);
    }
}

#[test]
fn first_matching_output_gives_the_required_level() {
    let mut aig = Network::new();
    let a = aig.add_input();
    let b = aig.add_input();
    let f = aig.and(a, b);
    aig.add_output(a);
    aig.add_output(!f);
    aig.add_output(f);
    let view = FanoutView::new(&aig);
    let levels = ReverseLevelViewBuilder::compute_levels(&aig, &view, Some(&vec![9, 4, 7]), None);
    assert_eq!(levels, vec![5]);
}

#[test]
fn shared_fanin_is_visited_once() {
    let mut aig = Network::new();
    let a = aig.add_input();
    let mut top = aig.and(a, !a);
    for _ in 0..40 {
        top = aig.and(top, !top);
    }
    aig.add_output(top);
    let levels = compute_levels(&aig, true);
    assert_eq!(levels.len(), 41);
    for i in 0..41 {
        assert_eq!(levels[i], i as u32 + 1);
    }
    let reverse = compute_reverse_levels(&aig, true);
    for i in 0..41 {
        assert_eq!(reverse[i], 41 - i as u32);
    }
}

#[test]
fn flip_flops_and_tables_count_like_any_gate() {
    let mut aig = Network::new();
    let a = aig.add_input();
    let b = aig.add_input();
    let lut = quaigh::Lut::new(vec![a, b], vec![false, true, true, true]).unwrap();
    let l = aig.add(Gate::Lut(lut));
    let d = aig.add(Gate::Dff(!l));
    let w = aig.add(Gate::Buf(d));
    let n = aig.add(Gate::Nary(vec![w, l, a], NaryType::Nor));
    aig.add_output(n);
    assert_eq!(compute_levels(&aig, true), vec![1, 2, 3, 4]);
    assert_eq!(compute_levels(&aig, false), vec![1, 2, 2, 3]);
    assert_eq!(compute_reverse_levels(&aig, true), vec![4, 3, 2, 1]);
    assert_eq!(compute_reverse_levels(&aig, false), vec![3, 2, 1, 1]);
}

#[test]
fn usable_tables() {
    assert!(table_is_usable(&vec![3, 2, 1, 0], 4, 5));
    assert!(!table_is_usable(&vec![3, 2, 1], 4, 5));
    assert!(!table_is_usable(&vec![3, 2, 1, 0, 0], 4, 5));
    assert!(table_is_usable(&vec![], 0, 0));
    assert!(table_is_usable(&vec![u32::MAX - 5], 1, 5));
    assert!(!table_is_usable(&vec![0, u32::MAX - 4], 2, 5));
    assert!(table_is_usable(&vec![u32::MAX], 1, 0));
}
