use trotter_qubo::config::{Jxx, FIXED_ONE};
use trotter_qubo::lattice::{create_vector, random_strength, Node, SubLattice};

fn jxx(l: usize, h: usize) -> Jxx {
    Jxx { j: FIXED_ONE, jl: 2 * FIXED_ONE, l, h, gamma: 0 }
}

fn tag(s: SubLattice) -> usize {
    match s {
        SubLattice::RED => 0,
        SubLattice::GREEN => 1,
        SubLattice::BLUE => 2,
    }
}

#[test]
fn lattice_has_l_squared_h_nodes() {
    assert_eq!(create_vector(&jxx(3, 1)).len(), 9);
    assert_eq!(create_vector(&jxx(3, 4)).len(), 36);
    assert_eq!(create_vector(&jxx(6, 2)).len(), 72);
}

#[test]
fn neighbours_wrap_around_periodically() {
    let l = 6;
    let nodes = create_vector(&jxx(l, 2));
    for (k, n) in nodes.iter().enumerate() {
        let (h, i, j) = (k / (l * l), (k % (l * l)) / l, k % l);
        assert_eq!(n.index, k);
        assert_eq!(n.right, h * l * l + i * l + (j + 1) % l);
        assert_eq!(n.bottom, h * l * l + ((i + 1) % l) * l + j);
        assert_eq!(n.btm_right, h * l * l + ((i + 1) % l) * l + (j + 1) % l);
        assert_eq!(n.layer_up, ((h + 1) % 2) * l * l + i * l + j);
    }
    // rightmost column of row 1 goes back to its first column
    assert_eq!(nodes[11].right, 6);
    // last row goes back to the first row
    assert_eq!(nodes[32].bottom, 2);
    assert_eq!(nodes[35].btm_right, 0);
    // top layer goes back to the first layer
    assert_eq!(nodes[36 + 7].layer_up, 7);
}

#[test]
fn uniform_couplings_and_spin_down() {
    let nodes = create_vector(&jxx(3, 2));
    for n in &nodes {
        assert_eq!(n.j_right, FIXED_ONE);
        assert_eq!(n.j_bottom, FIXED_ONE);
        assert_eq!(n.j_btm_right, FIXED_ONE);
        assert_eq!(n.j_layer_up, 2 * FIXED_ONE);
        assert!(!n.spin);
    }
}

#[test]
fn sublattice_follows_index_formula() {
    let l = 6;
    let nodes = create_vector(&jxx(l, 2));
    for (k, n) in nodes.iter().enumerate() {
        assert_eq!(tag(n.sub_lattice), ((k / l) + k) % 3);
    }
    assert_eq!(nodes[0].sub_lattice, SubLattice::RED);
    assert_eq!(nodes[1].sub_lattice, SubLattice::GREEN);
    assert_eq!(nodes[2].sub_lattice, SubLattice::BLUE);
    assert_eq!(nodes[6].sub_lattice, SubLattice::GREEN);
}

#[test]
fn every_row_and_column_has_each_sublattice_equally() {
    let l = 9;
    let nodes = create_vector(&jxx(l, 2));
    for h in 0..2 {
        for line in 0..l {
            let mut row = [0usize; 3];
            let mut col = [0usize; 3];
            for x in 0..l {
                row[tag(nodes[h * l * l + line * l + x].sub_lattice)] += 1;
                col[tag(nodes[h * l * l + x * l + line].sub_lattice)] += 1;
            }
            assert_eq!(row, [3, 3, 3]);
            assert_eq!(col, [3, 3, 3]);
            for x in 0..l {
                let a = tag(nodes[h * l * l + line * l + x].sub_lattice);
                let b = tag(nodes[h * l * l + line * l + (x + 1) % l].sub_lattice);
                assert_eq!(b, (a + 1) % 3);
            }
        }
    }
}

#[test]
fn node_new_sets_uniform_couplings() {
    let j = Jxx { j: 5, jl: 7, l: 3, h: 1, gamma: 0 };
    let n = Node::new(1, 2, 4, 5, 1, SubLattice::GREEN, &j);
    assert_eq!((n.index, n.right, n.bottom, n.btm_right, n.layer_up), (1, 2, 4, 5, 1));
    assert_eq!((n.j_right, n.j_bottom, n.j_btm_right, n.j_layer_up), (5, 5, 5, 7));
    assert!(!n.spin);
}

#[test]
fn random_strength_repeats_base_layer_pattern() {
    let j = jxx(3, 3);
    let mut nodes = create_vector(&j);
    let draws: Vec<i64> = (0..27).map(|x| x * 100 + 1).collect();
    random_strength(&mut nodes, &j, &draws, 4242);
    for (k, n) in nodes.iter().enumerate() {
        let m = k % 9;
        assert_eq!(n.j_right, draws[3 * m]);
        assert_eq!(n.j_bottom, draws[3 * m + 1]);
        assert_eq!(n.j_btm_right, draws[3 * m + 2]);
        assert_eq!(n.j_layer_up, 4242);
        assert_eq!(n.index, k);
    }
}
