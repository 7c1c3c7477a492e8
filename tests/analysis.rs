use trotter_qubo::analysis::{
    analyze_solutions, calc_c6_order_p, AnalysisError, ComplexColorP, Fraction,
};

// Sublattices of a 3 x 3 layer: {0, 5, 7}, {1, 3, 8}, {2, 4, 6}.
fn config(layer_offset: u64, up: [bool; 3]) -> Vec<(u64, bool)> {
    let groups = [[0u64, 5, 7], [1, 3, 8], [2, 4, 6]];
    let mut c = Vec::new();
    for (g, sites) in groups.iter().enumerate() {
        for s in sites {
            c.push((layer_offset + s, up[g]));
        }
    }
    c
}

fn value(f: Fraction) -> f64 {
    f.num as f64 / f.den as f64
}

#[test]
fn order_parameter_exact_values() {
    let c = ComplexColorP { m_blue: 3, m_black: -3, m_red: 0, count: 3 };
    let (order_p, c6) = c.get_order_parameter();
    assert_eq!(order_p, Fraction { num: 108, den: 108 });
    assert_eq!(c6, Fraction { num: -1259712, den: 1259712 });
}

#[test]
fn order_parameter_of_two_up_one_down() {
    let c = ComplexColorP { m_blue: 3, m_black: -3, m_red: 3, count: 3 };
    let (order_p, c6) = c.get_order_parameter();
    assert_eq!(order_p, Fraction { num: 144, den: 108 });
    assert_eq!(c6, Fraction { num: 2985984, den: 2985984 });
}

#[test]
fn symmetric_configuration_is_degenerate() {
    let c = ComplexColorP { m_blue: 1, m_black: 1, m_red: 1, count: 3 };
    let (order_p, c6) = c.get_order_parameter();
    assert_eq!(order_p.num, 0);
    assert_eq!(c6, Fraction { num: 0, den: 1 });
}

#[test]
fn new_requires_equal_counts() {
    assert_eq!(ComplexColorP::new([1, 2, 3], [3, 3, 2]), None);
    assert_eq!(ComplexColorP::new([0, 0, 0], [0, 0, 0]), None);
    assert_eq!(
        ComplexColorP::new([1, -3, 3], [3, 3, 3]),
        Some(ComplexColorP { m_blue: 1, m_black: -3, m_red: 3, count: 3 })
    );
}

#[test]
fn all_spins_up_is_skipped() {
    let r = calc_c6_order_p(&config(0, [true, true, true]), 3, 1).unwrap();
    assert_eq!(r.len(), 1);
    assert!(r[0].skipped);
    assert_eq!(r[0].order_p.num, 0);
    assert_eq!(r[0].c6, Fraction { num: 0, den: 1 });
}

#[test]
fn mixed_layer_values() {
    let r = calc_c6_order_p(&config(0, [true, false, false]), 3, 1).unwrap();
    assert!(!r[0].skipped);
    assert_eq!(r[0].layer, 0);
    assert!((value(r[0].order_p) - 4.0 / 3.0).abs() < 1e-12);
    assert_eq!(value(r[0].c6), 1.0);
}

#[test]
fn layers_are_analysed_separately() {
    let mut c = config(0, [true, false, true]);
    c.extend(config(9, [true, true, true]));
    let r = calc_c6_order_p(&c, 3, 2).unwrap();
    assert_eq!(r.len(), 2);
    assert_eq!((r[0].layer, r[0].skipped), (0, false));
    assert_eq!((r[1].layer, r[1].skipped), (1, true));
    assert_eq!(r[0].order_p, Fraction { num: 144, den: 108 });
}

#[test]
fn site_beyond_last_layer_is_an_error() {
    let mut c = config(0, [true, false, true]);
    c.push((9, true));
    assert_eq!(calc_c6_order_p(&c, 3, 1), Err(AnalysisError::LayerOutOfRange));
}

#[test]
fn missing_site_is_an_error() {
    let mut c = config(0, [true, false, true]);
    c.pop();
    assert_eq!(calc_c6_order_p(&c, 3, 1), Err(AnalysisError::UnevenSublattices));
    assert_eq!(calc_c6_order_p(&Vec::new(), 3, 1), Err(AnalysisError::UnevenSublattices));
}

#[test]
fn batch_accounts_for_every_layer() {
    let configs = vec![
        config(0, [true, true, true]),
        config(0, [true, false, false]),
        config(0, [false, false, false]),
        config(0, [false, true, true]),
    ];
    let b = analyze_solutions(&configs, 3, 1).unwrap();
    assert_eq!(b.records.len(), 2);
    assert_eq!(b.skipped, 2);
    assert_eq!(b.records.len() + b.skipped, configs.len());
    assert_eq!((b.records[0].config_index, b.records[0].layer), (1, 0));
    assert_eq!((b.records[1].config_index, b.records[1].layer), (3, 0));
}

#[test]
fn batch_stops_at_first_faulty_configuration() {
    let mut bad = config(0, [true, false, true]);
    bad.pop();
    let configs = vec![config(0, [true, false, true]), bad];
    assert!(matches!(
        analyze_solutions(&configs, 3, 1),
        Err(AnalysisError::UnevenSublattices)
    ));
}
