use trotter_qubo::config::{Jxx, FIXED_ONE};
use trotter_qubo::hamiltonian::{get_back, get_front, hamiltonian_eff, is_cycle, Direction};
use trotter_qubo::lattice::create_vector;
use trotter_qubo::polynomial::{consolidate, Polynomial, Term};

const K: i128 = FIXED_ONE as i128;

fn term(c: i128, v: &[usize]) -> Term {
    Term { coefficient: c, variables: v.to_vec() }
}

fn coefficient(p: &Polynomial, v: &[usize]) -> Option<i128> {
    let found: Vec<&Term> = p.terms().iter().filter(|t| t.variables == v).collect();
    assert!(found.len() <= 1);
    found.first().map(|t| t.coefficient)
}

fn snapshot(p: &Polynomial) -> (Vec<(i128, Vec<usize>)>, i128) {
    (p.terms().iter().map(|t| (t.coefficient, t.variables.clone())).collect(), p.constant())
}

#[test]
fn consolidation_sums_equal_keys() {
    let p = consolidate(&vec![term(5, &[3, 1]), term(7, &[1, 3]), term(2, &[]), term(-4, &[])]);
    assert_eq!(p.terms().len(), 1);
    assert_eq!(p.terms()[0].variables, vec![1, 3]);
    assert_eq!(p.terms()[0].coefficient, 12);
    assert_eq!(p.constant(), -2);
}

#[test]
fn consolidation_keeps_first_appearance_order() {
    let p = consolidate(&vec![
        term(1, &[2]),
        term(1, &[0, 2]),
        term(3, &[2]),
        term(-1, &[2, 0]),
        term(6, &[4]),
    ]);
    assert_eq!(snapshot(&p), (vec![(4, vec![2]), (0, vec![0, 2]), (6, vec![4])], 0));
}

#[test]
fn add_term_merges_into_existing_term() {
    let mut p = Polynomial::new();
    p.add_term(10, vec![7, 5]);
    p.add_term(-3, vec![5, 7]);
    p.add_term(4, vec![5]);
    p.add_term(9, vec![]);
    assert_eq!(snapshot(&p), (vec![(7, vec![5, 7]), (4, vec![5])], 9));
}

#[test]
fn is_cycle_detects_boundary_edges() {
    assert!(is_cycle(2, 0, 3, Direction::Right));
    assert!(!is_cycle(1, 2, 3, Direction::Right));
    assert!(!is_cycle(1, 4, 3, Direction::Bottom));
    assert!(is_cycle(7, 1, 3, Direction::Bottom));
    assert!(!is_cycle(0, 4, 3, Direction::BtmRight));
    assert!(is_cycle(2, 3, 3, Direction::BtmRight));
    assert!(is_cycle(6, 1, 3, Direction::BtmRight));
}

#[test]
fn front_terms_of_one_site() {
    let j = Jxx { j: FIXED_ONE, jl: 0, l: 3, h: 1, gamma: 0 };
    let nodes = create_vector(&j);
    let f = get_front(&nodes, 0, 0, &j, false);
    let got: Vec<(i128, Vec<usize>)> = f.iter().map(|t| (t.coefficient, t.variables.clone())).collect();
    assert_eq!(got.len(), 12);
    assert_eq!(got[0], (4 * K, vec![0, 1]));
    assert_eq!(got[1], (-2 * K, vec![0]));
    assert_eq!(got[2], (-2 * K, vec![1]));
    assert_eq!(got[3], (K, vec![]));
    assert_eq!(got[4], (4 * K, vec![0, 3]));
    assert_eq!(got[8], (4 * K, vec![0, 4]));
    // last site: every edge wraps
    assert_eq!(get_front(&nodes, 8, 0, &j, true).len(), 0);
    // middle site: nothing wraps
    assert_eq!(get_front(&nodes, 4, 0, &j, true).len(), 12);
}

#[test]
fn back_terms_follow_layer_chain() {
    let j = Jxx { j: FIXED_ONE, jl: 3, l: 3, h: 3, gamma: 1 };
    let nodes = create_vector(&j);
    let b = get_back(&nodes, &j, 1, false);
    let got: Vec<(i128, Vec<usize>)> = b.iter().map(|t| (t.coefficient, t.variables.clone())).collect();
    assert_eq!(got.len(), 12);
    assert_eq!(got[0], (-12, vec![1, 10]));
    assert_eq!(got[1], (6, vec![1]));
    assert_eq!(got[2], (6, vec![10]));
    assert_eq!(got[3], (-3, vec![]));
    assert_eq!(got[4], (-12, vec![10, 19]));
    assert_eq!(got[8], (-12, vec![19, 1]));
    let open = get_back(&nodes, &j, 1, true);
    assert_eq!(open.len(), 8);
}

#[test]
fn classical_three_by_three_polynomial() {
    let j = Jxx { j: FIXED_ONE, jl: 0, l: 3, h: 1, gamma: 0 };
    let nodes = create_vector(&j);
    let p = hamiltonian_eff(&nodes, &j, false);
    let quadratic: Vec<&Term> = p.terms().iter().filter(|t| t.variables.len() == 2).collect();
    let linear: Vec<&Term> = p.terms().iter().filter(|t| t.variables.len() == 1).collect();
    assert_eq!(quadratic.len(), 27);
    assert_eq!(linear.len(), 9);
    assert!(quadratic.iter().all(|t| t.coefficient == 4 * K && t.variables[0] < t.variables[1]));
    assert!(linear.iter().all(|t| t.coefficient == -12 * K));
    assert_eq!(p.constant(), 27 * K);
    assert_eq!(p.terms()[0].variables, vec![0, 1]);
    assert_eq!(p.terms()[1].variables, vec![0]);
}

#[test]
fn classical_polynomial_is_reproducible() {
    let j = Jxx { j: FIXED_ONE, jl: 0, l: 3, h: 1, gamma: 0 };
    let first = snapshot(&hamiltonian_eff(&create_vector(&j), &j, false));
    let second = snapshot(&hamiltonian_eff(&create_vector(&j), &j, false));
    assert_eq!(first, second);
}

#[test]
fn cycle_suppression_drops_boundary_edges() {
    let j = Jxx { j: FIXED_ONE, jl: 0, l: 3, h: 1, gamma: 0 };
    let p = hamiltonian_eff(&create_vector(&j), &j, true);
    let quadratic: Vec<&Term> = p.terms().iter().filter(|t| t.variables.len() == 2).collect();
    // 27 edges, of which 4L - 1 = 11 cross the boundary
    assert_eq!(quadratic.len(), 16);
    assert_eq!(p.constant(), 16 * K);
    for t in &quadratic {
        let (a, b) = (t.variables[0], t.variables[1]);
        assert!(b == a + 1 && a % 3 < 2 || b == a + 3 || b == a + 4 && a % 3 < 2);
    }
    assert_eq!(coefficient(&p, &[0]), Some(-6 * K));
    assert_eq!(coefficient(&p, &[4]), Some(-12 * K));
    assert_eq!(coefficient(&p, &[2]), Some(-4 * K));
    assert_eq!(coefficient(&p, &[2, 0]), None);
    assert_eq!(coefficient(&p, &[0, 2]), None);
}

#[test]
fn two_layers_with_periodic_chain() {
    let j = Jxx { j: FIXED_ONE, jl: FIXED_ONE, l: 3, h: 2, gamma: 1 };
    let p = hamiltonian_eff(&create_vector(&j), &j, false);
    assert_eq!(p.constant(), 36 * K);
    for i in 0..9 {
        assert_eq!(coefficient(&p, &[i, i + 9]), Some(-8 * K));
        assert_eq!(coefficient(&p, &[i]), Some(-8 * K));
        assert_eq!(coefficient(&p, &[i + 9]), Some(-8 * K));
    }
}

#[test]
fn two_layers_without_cycle() {
    let j = Jxx { j: FIXED_ONE, jl: FIXED_ONE, l: 3, h: 2, gamma: 1 };
    let p = hamiltonian_eff(&create_vector(&j), &j, true);
    assert_eq!(p.constant(), 32 * K - 9 * K);
    for i in 0..9 {
        assert_eq!(coefficient(&p, &[i, i + 9]), Some(-4 * K));
    }
    assert_eq!(coefficient(&p, &[0]), Some(-6 * K + 2 * K));
}

#[test]
fn emitted_terms_append_nonzero_constant() {
    let p = consolidate(&vec![term(3, &[1, 0]), term(5, &[]), term(-1, &[2])]);
    let out: Vec<(i128, Vec<usize>)> = p.emitted_terms().iter().map(|t| (t.coefficient, t.variables.clone())).collect();
    assert_eq!(out, vec![(3, vec![0, 1]), (-1, vec![2]), (5, vec![])]);
    let q = consolidate(&vec![term(3, &[1, 0]), term(5, &[]), term(-5, &[])]);
    assert_eq!(q.emitted_terms().len(), 1);
}
