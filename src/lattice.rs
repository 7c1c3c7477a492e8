//! The `L x L x H` triangular lattice: sites, neighbours and sublattices.
use vstd::prelude::*;
use vstd::arithmetic::div_mod::{
    lemma_fundamental_div_mod_converse,
    lemma_fundamental_div_mod,
    lemma_mod_bound,
};
use vstd::arithmetic::mul::{lemma_mul_inequality, lemma_mul_strict_inequality};
use crate::config::Jxx;

verus! {

/// One of the three interleaved sublattices of the triangular lattice.
#[allow(non_camel_case_types, clippy::upper_case_acronyms)]
#[derive(Debug, Clone, Copy, PartialEq, Eq, Structural)]
pub enum SubLattice {
    RED,
    GREEN,
    BLUE,
}

/// The number `0`, `1` or `2` of a sublattice.
pub open spec fn sublattice_tag(s: SubLattice) -> int {
    match s {
        SubLattice::RED => 0,
        SubLattice::GREEN => 1,
        SubLattice::BLUE => 2,
    }
}

/// Sublattice number of the site with index `k` on a lattice of side `l`.
pub open spec fn sublattice_of(l: int, k: int) -> int {
    ((k / l) + k) % 3
}

/// Index of the site at layer `hh`, row `i`, column `j`.
pub open spec fn site_index(l: int, hh: int, i: int, j: int) -> int {
    hh * (l * l) + i * l + j
}

/// Layer of the site with index `k`.
pub open spec fn layer_of(l: int, k: int) -> int {
    k / (l * l)
}

/// Row of the site with index `k`.
pub open spec fn row_of(l: int, k: int) -> int {
    (k % (l * l)) / l
}

/// Column of the site with index `k`.
pub open spec fn col_of(l: int, k: int) -> int {
    (k % (l * l)) % l
}

/// Right neighbour of site `k`: next column, wrapping within the row.
pub open spec fn right_of(l: int, k: int) -> int {
    site_index(l, layer_of(l, k), row_of(l, k), (col_of(l, k) + 1) % l)
}

/// Bottom neighbour of site `k`: next row, wrapping within the column.
pub open spec fn bottom_of(l: int, k: int) -> int {
    site_index(l, layer_of(l, k), (row_of(l, k) + 1) % l, col_of(l, k))
}

/// Bottom-right neighbour of site `k`: next row and next column, both wrapping.
pub open spec fn btm_right_of(l: int, k: int) -> int {
    site_index(l, layer_of(l, k), (row_of(l, k) + 1) % l, (col_of(l, k) + 1) % l)
}

/// The same site in the next layer, wrapping from the top layer to the first.
pub open spec fn layer_up_of(l: int, h: int, k: int) -> int {
    site_index(l, (layer_of(l, k) + 1) % h, row_of(l, k), col_of(l, k))
}

/// One site of the lattice with its outgoing edges and their couplings.
///
/// Couplings are fixed-point numbers (see [`crate::config::FIXED_ONE`]).
#[derive(Debug, Clone, Copy)]
pub struct Node {
    pub index: usize,
    pub right: usize,
    pub bottom: usize,
    pub btm_right: usize,
    pub layer_up: usize,
    /// Spin of the site, `true` for up.
    pub spin: bool,
    pub sub_lattice: SubLattice,
    pub j_right: i64,
    pub j_bottom: i64,
    pub j_btm_right: i64,
    pub j_layer_up: i64,
}

/// Node `n` is site `k` of an `l x l x h` lattice: its index, neighbours and
/// sublattice follow the geometry (couplings are free).
pub open spec fn node_wf(n: Node, l: int, h: int, k: int) -> bool {
    &&& n.index as int == k
    &&& n.right as int == right_of(l, k)
    &&& n.bottom as int == bottom_of(l, k)
    &&& n.btm_right as int == btm_right_of(l, k)
    &&& n.layer_up as int == layer_up_of(l, h, k)
    &&& sublattice_tag(n.sub_lattice) == sublattice_of(l, k)
}

/// `nodes` is an `l x l x h` lattice, node `k` being site `k`.
pub open spec fn lattice_wf(nodes: Seq<Node>, l: int, h: int) -> bool {
    &&& l > 0
    &&& h > 0
    &&& nodes.len() == l * l * h
    &&& forall|k: int| 0 <= k < nodes.len() ==> #[trigger] node_wf(nodes[k], l, h, k)
}

/// Coordinates and index of a site determine each other.
pub proof fn lemma_site_coordinates(l: int, h: int, hh: int, i: int, j: int)
    requires
        l > 0,
        0 <= hh < h,
        0 <= i < l,
        0 <= j < l,
    ensures
        0 <= site_index(l, hh, i, j) < l * l * h,
        layer_of(l, site_index(l, hh, i, j)) == hh,
        row_of(l, site_index(l, hh, i, j)) == i,
        col_of(l, site_index(l, hh, i, j)) == j,
{
    let r = i * l + j;
    lemma_mul_strict_inequality(i, l, l);
    assert(i * l + l == (i + 1) * l) by (nonlinear_arith);
    lemma_mul_inequality(i + 1, l, l);
    assert(0 <= r < l * l) by (nonlinear_arith)
        requires r == i * l + j, 0 <= i, 0 <= j < l, (i + 1) * l <= l * l, l > 0;
    lemma_fundamental_div_mod_converse(site_index(l, hh, i, j), l * l, hh, r);
    lemma_fundamental_div_mod_converse(r, l, i, j);
    assert(hh * (l * l) + l * l == (hh + 1) * (l * l)) by (nonlinear_arith);
    lemma_mul_inequality(hh + 1, h, l * l);
    assert(0 <= hh * (l * l)) by (nonlinear_arith) requires hh >= 0, l > 0;
    assert((l * l) * h == l * l * h) by (nonlinear_arith);
}

/// Every site index has coordinates within the lattice.
pub proof fn lemma_index_coordinates(l: int, h: int, k: int)
    requires
        l > 0,
        h > 0,
        0 <= k < l * l * h,
    ensures
        0 <= layer_of(l, k) < h,
        0 <= row_of(l, k) < l,
        0 <= col_of(l, k) < l,
        site_index(l, layer_of(l, k), row_of(l, k), col_of(l, k)) == k,
{
    assert(l * l > 0) by (nonlinear_arith) requires l > 0;
    let r = k % (l * l);
    lemma_fundamental_div_mod(k, l * l);
    lemma_mod_bound(k, l * l);
    lemma_fundamental_div_mod(r, l);
    lemma_mod_bound(r, l);
    assert(0 <= k / (l * l) < h) by (nonlinear_arith)
        requires l * l > 0, 0 <= k < l * l * h, k == (l * l) * (k / (l * l)) + k % (l * l),
            0 <= k % (l * l) < l * l;
    assert(0 <= r / l < l) by (nonlinear_arith)
        requires l > 0, 0 <= r < l * l, r == l * (r / l) + r % l, 0 <= r % l < l;
    assert((l * l) * (k / (l * l)) == (k / (l * l)) * (l * l)) by (nonlinear_arith);
    assert(l * (r / l) == (r / l) * l) by (nonlinear_arith);
}

/// All four neighbours of a site are sites of the lattice.
pub proof fn lemma_neighbors_in_range(l: int, h: int, k: int)
    requires
        l > 0,
        h > 0,
        0 <= k < l * l * h,
    ensures
        0 <= right_of(l, k) < l * l * h,
        0 <= bottom_of(l, k) < l * l * h,
        0 <= btm_right_of(l, k) < l * l * h,
        0 <= layer_up_of(l, h, k) < l * l * h,
{
    lemma_index_coordinates(l, h, k);
    let (hh, i, j) = (layer_of(l, k), row_of(l, k), col_of(l, k));
    lemma_mod_bound(j + 1, l);
    lemma_mod_bound(i + 1, l);
    lemma_mod_bound(hh + 1, h);
    lemma_site_coordinates(l, h, hh, i, (j + 1) % l);
    lemma_site_coordinates(l, h, hh, (i + 1) % l, j);
    lemma_site_coordinates(l, h, hh, (i + 1) % l, (j + 1) % l);
    lemma_site_coordinates(l, h, (hh + 1) % h, i, j);
}

/// Going up one layer from the copy of base site `start` in layer `s`
/// reaches its copy in layer `s + 1`, or `start` itself from the top layer.
pub proof fn lemma_chain_step(l: int, h: int, start: int, s: int)
    requires
        l > 0,
        0 <= start < l * l,
        0 <= s < h,
    ensures
        0 <= start + s * (l * l) < l * l * h,
        layer_up_of(l, h, start + s * (l * l)) == start + ((s + 1) % h) * (l * l),
        layer_up_of(l, h, start + s * (l * l)) == start <==> s == h - 1,
{
    assert(l * l * 1 <= l * l * h) by (nonlinear_arith) requires l > 0, h >= 1;
    lemma_index_coordinates(l, 1, start);
    let (i, j) = (row_of(l, start), col_of(l, start));
    assert(layer_of(l, start) == 0) by (nonlinear_arith)
        requires 0 <= layer_of(l, start) < 1;
    assert(start == i * l + j) by (nonlinear_arith)
        requires start == site_index(l, 0, i, j);
    lemma_site_coordinates(l, h, s, i, j);
    lemma_mod_bound(s + 1, h);
    lemma_site_coordinates(l, h, (s + 1) % h, i, j);
    if s == h - 1 {
        assert((s + 1) % h == 0) by (nonlinear_arith) requires s + 1 == h, h > 0;
        assert(0 * (l * l) == 0) by (nonlinear_arith);
    } else {
        assert((s + 1) % h == s + 1) by (nonlinear_arith) requires 0 <= s + 1 < h;
        assert((s + 1) * (l * l) > 0) by (nonlinear_arith) requires s + 1 > 0, l > 0;
    }
}

/// Sublattice with the given number.
fn sub_lattice_from(t: usize) -> (s: SubLattice)
    requires
        t < 3,
    ensures
        sublattice_tag(s) == t,
{
    if t == 0 {
        SubLattice::RED
    } else if t == 1 {
        SubLattice::GREEN
    } else {
        SubLattice::BLUE
    }
}

impl Node {
    /// A node with the given neighbours, the in-plane couplings set to
    /// `jxx.j`, the layer coupling to `jxx.jl`, and spin down.
    pub fn new(
        index: usize,
        right: usize,
        bottom: usize,
        btm_right: usize,
        layer_up: usize,
        sub_lattice: SubLattice,
        jxx: &Jxx,
    ) -> (n: Node)
        ensures
            n.index == index,
            n.right == right,
            n.bottom == bottom,
            n.btm_right == btm_right,
            n.layer_up == layer_up,
            n.sub_lattice == sub_lattice,
            !n.spin,
            n.j_right == jxx.j,
            n.j_bottom == jxx.j,
            n.j_btm_right == jxx.j,
            n.j_layer_up == jxx.jl,
    {
        Node {
            index,
            right,
            bottom,
            btm_right,
            layer_up,
            spin: false,
            sub_lattice,
            j_right: jxx.j,
            j_bottom: jxx.j,
            j_btm_right: jxx.j,
            j_layer_up: jxx.jl,
        }
    }
}

/// Builds the `L x L x H` lattice of `jxx`, with uniform couplings.
pub fn create_vector(jxx: &Jxx) -> (nodes: Vec<Node>)
    requires
        jxx.wf(),
    ensures
        lattice_wf(nodes@, jxx.l as int, jxx.h as int),
        forall|k: int|
            0 <= k < nodes@.len() ==> {
                &&& (#[trigger] nodes@[k]).j_right == jxx.j
                &&& nodes@[k].j_bottom == jxx.j
                &&& nodes@[k].j_btm_right == jxx.j
                &&& nodes@[k].j_layer_up == jxx.jl
                &&& !nodes@[k].spin
            },
{
    let l = jxx.l;
    let height = jxx.h;
    let ghost gl = l as int;
    let ghost gh = height as int;
    assert(l * l <= l * l * height) by (nonlinear_arith) requires height >= 1, l > 0;
    let l2 = l * l;
    let mut nodes: Vec<Node> = Vec::new();
    assert(0 * (l * l) == 0) by (nonlinear_arith);
    for hh in 0..height
        invariant
            jxx.wf(),
            l == jxx.l,
            height == jxx.h,
            l2 == l * l,
            gl == l,
            gh == height,
            nodes@.len() == hh * (l * l),
            forall|k: int| 0 <= k < nodes@.len() ==> #[trigger] node_wf(nodes@[k], gl, gh, k),
            forall|k: int|
                0 <= k < nodes@.len() ==> {
                    &&& (#[trigger] nodes@[k]).j_right == jxx.j
                    &&& nodes@[k].j_bottom == jxx.j
                    &&& nodes@[k].j_btm_right == jxx.j
                    &&& nodes@[k].j_layer_up == jxx.jl
                    &&& !nodes@[k].spin
                },
    {
        assert(hh * (l * l) + 0 * l == hh * (l * l)) by (nonlinear_arith);
        for i in 0..l
            invariant
                jxx.wf(),
                l == jxx.l,
                height == jxx.h,
                l2 == l * l,
                gl == l,
                gh == height,
                hh < height,
                nodes@.len() == hh * (l * l) + i * l,
                forall|k: int| 0 <= k < nodes@.len() ==> #[trigger] node_wf(nodes@[k], gl, gh, k),
                forall|k: int|
                    0 <= k < nodes@.len() ==> {
                        &&& (#[trigger] nodes@[k]).j_right == jxx.j
                        &&& nodes@[k].j_bottom == jxx.j
                        &&& nodes@[k].j_btm_right == jxx.j
                        &&& nodes@[k].j_layer_up == jxx.jl
                        &&& !nodes@[k].spin
                    },
        {
            for j in 0..l
                invariant
                    jxx.wf(),
                    l == jxx.l,
                    height == jxx.h,
                    l2 == l * l,
                    gl == l,
                    gh == height,
                    hh < height,
                    i < l,
                    nodes@.len() == hh * (l * l) + i * l + j,
                    forall|k: int|
                        0 <= k < nodes@.len() ==> #[trigger] node_wf(nodes@[k], gl, gh, k),
                    forall|k: int|
                        0 <= k < nodes@.len() ==> {
                            &&& (#[trigger] nodes@[k]).j_right == jxx.j
                            &&& nodes@[k].j_bottom == jxx.j
                            &&& nodes@[k].j_btm_right == jxx.j
                            &&& nodes@[k].j_layer_up == jxx.jl
                            &&& !nodes@[k].spin
                        },
            {
                let ghost k = site_index(gl, hh as int, i as int, j as int);
                let jr = (j + 1) % l;
                let ib = (i + 1) % l;
                let hu = (hh + 1) % height;
                proof {
                    lemma_site_coordinates(gl, gh, hh as int, i as int, j as int);
                    lemma_site_coordinates(gl, gh, hh as int, i as int, jr as int);
                    lemma_site_coordinates(gl, gh, hh as int, ib as int, j as int);
                    lemma_site_coordinates(gl, gh, hh as int, ib as int, jr as int);
                    lemma_site_coordinates(gl, gh, hu as int, i as int, j as int);
                }
                let index = hh * l2 + i * l + j;
                let right = hh * l2 + i * l + jr;
                let bottom = hh * l2 + ib * l + j;
                let btm_right = hh * l2 + ib * l + jr;
                let layer_up = hu * l2 + i * l + j;
                let sub_lattice = sub_lattice_from(((index / l) + index) % 3);
                let node = Node::new(index, right, bottom, btm_right, layer_up, sub_lattice, jxx);
                nodes.push(node);
                assert(node_wf(nodes@[k], gl, gh, k));
            }
            assert(hh * (l * l) + i * l + l == hh * (l * l) + (i + 1) * l) by (nonlinear_arith);
        }
        assert(hh * (l * l) + l * l == (hh + 1) * (l * l)) by (nonlinear_arith);
    }
    assert(height * (l * l) == l * l * height) by (nonlinear_arith);
    nodes
}

/// Site `k` of a lattice whose nodes hold the given couplings, and
/// otherwise agree with `before`.
pub open spec fn with_couplings(before: Node, after: Node, jr: i64, jb: i64, jbr: i64, jl: i64) -> bool {
    after == Node { j_right: jr, j_bottom: jb, j_btm_right: jbr, j_layer_up: jl, ..before }
}

/// Sets drawn couplings: every copy of base site `m` (in every layer) takes
/// the in-plane couplings `draws[3m]`, `draws[3m + 1]`, `draws[3m + 2]`
/// (right, bottom, bottom-right), and every layer coupling is `layer_draw`.
pub fn random_strength(nodes: &mut Vec<Node>, jxx: &Jxx, draws: &Vec<i64>, layer_draw: i64)
    requires
        jxx.wf(),
        lattice_wf(old(nodes)@, jxx.l as int, jxx.h as int),
        draws@.len() == 3 * (jxx.l * jxx.l),
    ensures
        final(nodes)@.len() == old(nodes)@.len(),
        lattice_wf(final(nodes)@, jxx.l as int, jxx.h as int),
        forall|k: int|
            0 <= k < old(nodes)@.len() ==> with_couplings(
                old(nodes)@[k],
                #[trigger] final(nodes)@[k],
                draws@[3 * (k % (jxx.l * jxx.l))],
                draws@[3 * (k % (jxx.l * jxx.l)) + 1],
                draws@[3 * (k % (jxx.l * jxx.l)) + 2],
                layer_draw,
            ),
{
    let l = jxx.l;
    let height = jxx.h;
    let ghost (gl, gh) = (jxx.l as int, jxx.h as int);
    let ghost before = nodes@;
    assert(l * l <= l * l * height) by (nonlinear_arith) requires height >= 1;
    let l2 = l * l;
    for hh in 0..height
        invariant
            jxx.wf(),
            l == jxx.l,
            height == jxx.h,
            gl == l,
            gh == height,
            l2 == l * l,
            draws@.len() == 3 * l2,
            nodes@.len() == before.len(),
            lattice_wf(before, gl, gh),
            forall|k: int| 0 <= k < nodes@.len() ==> #[trigger] node_wf(nodes@[k], gl, gh, k),
            forall|k: int|
                0 <= k < hh * l2 ==> with_couplings(
                    before[k],
                    #[trigger] nodes@[k],
                    draws@[3 * (k % (l2 as int))],
                    draws@[3 * (k % (l2 as int)) + 1],
                    draws@[3 * (k % (l2 as int)) + 2],
                    layer_draw,
                ),
            forall|k: int| hh * l2 <= k < nodes@.len() ==> #[trigger] nodes@[k] == before[k],
    {
        for ndx in 0..l2
            invariant
                jxx.wf(),
                l == jxx.l,
                height == jxx.h,
                gl == l,
                gh == height,
                l2 == l * l,
                hh < height,
                draws@.len() == 3 * l2,
                nodes@.len() == before.len(),
                lattice_wf(before, gl, gh),
                forall|k: int| 0 <= k < nodes@.len() ==> #[trigger] node_wf(nodes@[k], gl, gh, k),
                forall|k: int|
                    0 <= k < hh * l2 + ndx ==> with_couplings(
                        before[k],
                        #[trigger] nodes@[k],
                        draws@[3 * (k % (l2 as int))],
                        draws@[3 * (k % (l2 as int)) + 1],
                        draws@[3 * (k % (l2 as int)) + 2],
                        layer_draw,
                    ),
                forall|k: int| hh * l2 + ndx <= k < nodes@.len() ==> #[trigger] nodes@[k] == before[k],
        {
            assert(hh * l2 + ndx < l2 * height) by (nonlinear_arith)
                requires hh < height, ndx < l2;
            assert(l2 * height == l * l * height) by (nonlinear_arith) requires l2 == l * l;
            let k = hh * l2 + ndx;
            proof {
                lemma_fundamental_div_mod_converse(k as int, l2 as int, hh as int, ndx as int);
            }
            let mut node = nodes[k];
            node.j_right = draws[3 * ndx];
            node.j_bottom = draws[3 * ndx + 1];
            node.j_btm_right = draws[3 * ndx + 2];
            node.j_layer_up = layer_draw;
            let ghost prev = nodes@;
            nodes.set(k, node);
            assert forall|k2: int| 0 <= k2 < nodes@.len() implies #[trigger] node_wf(nodes@[k2], gl, gh, k2) by {
                assert(node_wf(prev[k2], gl, gh, k2));
            }
        }
        assert(hh * l2 + l2 == (hh + 1) * l2) by (nonlinear_arith);
    }
    assert(height * l2 == l * l * height) by (nonlinear_arith) requires l2 == l * l;
}

/// The lattice is periodic: the right neighbour of a last-column site is
/// the first site of its row, the bottom neighbour of a last-row site is
/// the site of its column in the first row, and the layer-up neighbour of a
/// top-layer site is its copy in the first layer. Every neighbour is a site.
pub proof fn lemma_periodic_wraparound(l: int, h: int, k: int)
    requires
        l > 0,
        h > 0,
        0 <= k < l * l * h,
    ensures
        0 <= right_of(l, k) < l * l * h,
        0 <= bottom_of(l, k) < l * l * h,
        0 <= btm_right_of(l, k) < l * l * h,
        0 <= layer_up_of(l, h, k) < l * l * h,
        col_of(l, k) == l - 1 ==> right_of(l, k) == k - (l - 1),
        col_of(l, k) < l - 1 ==> right_of(l, k) == k + 1,
        row_of(l, k) == l - 1 ==> bottom_of(l, k) == k - (l - 1) * l,
        row_of(l, k) < l - 1 ==> bottom_of(l, k) == k + l,
        layer_of(l, k) == h - 1 ==> layer_up_of(l, h, k) == k - (h - 1) * (l * l),
        layer_of(l, k) < h - 1 ==> layer_up_of(l, h, k) == k + l * l,
{
    lemma_neighbors_in_range(l, h, k);
    lemma_index_coordinates(l, h, k);
    let (hh, i, j) = (layer_of(l, k), row_of(l, k), col_of(l, k));
    if j == l - 1 {
        assert((j + 1) % l == 0) by (nonlinear_arith) requires j + 1 == l, l > 0;
    } else {
        vstd::arithmetic::div_mod::lemma_small_mod((j + 1) as nat, l as nat);
    }
    if i == l - 1 {
        assert((i + 1) % l == 0) by (nonlinear_arith) requires i + 1 == l, l > 0;
        assert(0 * l == 0 && i * l == (l - 1) * l) by (nonlinear_arith) requires i == l - 1;
    } else {
        vstd::arithmetic::div_mod::lemma_small_mod((i + 1) as nat, l as nat);
        assert((i + 1) * l == i * l + l) by (nonlinear_arith);
    }
    if hh == h - 1 {
        assert((hh + 1) % h == 0) by (nonlinear_arith) requires hh + 1 == h, h > 0;
        assert(0 * (l * l) == 0 && hh * (l * l) == (h - 1) * (l * l)) by (nonlinear_arith)
            requires hh == h - 1;
    } else {
        vstd::arithmetic::div_mod::lemma_small_mod((hh + 1) as nat, h as nat);
        assert((hh + 1) * (l * l) == hh * (l * l) + l * l) by (nonlinear_arith);
    }
}

/// With `L` a multiple of three a site's sublattice is `(row + column) mod 3`.
/// One step right or down, wrapping around, advances the sublattice by one,
/// so any three consecutive sites of a row or of a column carry the three
/// sublattices once each; copies of a site in other layers share its
/// sublattice.
pub proof fn lemma_sublattice_pattern(l: int, h: int, k: int)
    requires
        l > 0,
        l % 3 == 0,
        h > 0,
        0 <= k < l * l * h,
    ensures
        sublattice_of(l, k) == (row_of(l, k) + col_of(l, k)) % 3,
        sublattice_of(l, right_of(l, k)) == (sublattice_of(l, k) + 1) % 3,
        sublattice_of(l, bottom_of(l, k)) == (sublattice_of(l, k) + 1) % 3,
        sublattice_of(l, layer_up_of(l, h, k)) == sublattice_of(l, k),
        sublattice_of(l, right_of(l, right_of(l, k))) == (sublattice_of(l, k) + 2) % 3,
        sublattice_of(l, bottom_of(l, bottom_of(l, k))) == (sublattice_of(l, k) + 2) % 3,
{
    lemma_sublattice_step(l, h, k);
    lemma_neighbors_in_range(l, h, k);
    lemma_sublattice_step(l, h, right_of(l, k));
    lemma_sublattice_step(l, h, bottom_of(l, k));
}

proof fn lemma_sublattice_is_row_plus_col(l: int, h: int, hh: int, i: int, j: int)
    requires
        l > 0,
        l % 3 == 0,
        0 <= hh < h,
        0 <= i < l,
        0 <= j < l,
    ensures
        sublattice_of(l, site_index(l, hh, i, j)) == (i + j) % 3,
{
    let k = site_index(l, hh, i, j);
    let m = l / 3;
    assert(l == 3 * m);
    assert(k == (hh * l + i) * l + j) by (nonlinear_arith) requires k == hh * (l * l) + i * l + j;
    lemma_fundamental_div_mod_converse(k, l, hh * l + i, j);
    assert((k / l) + k == (i + j) + 3 * (hh * m + hh * l * m + i * m)) by (nonlinear_arith)
        requires k / l == hh * l + i, k == hh * (l * l) + i * l + j, l == 3 * m;
    vstd::arithmetic::div_mod::lemma_mod_multiples_vanish(hh * m + hh * l * m + i * m, i + j, 3);
}

proof fn lemma_sublattice_step(l: int, h: int, k: int)
    requires
        l > 0,
        l % 3 == 0,
        h > 0,
        0 <= k < l * l * h,
    ensures
        sublattice_of(l, k) == (row_of(l, k) + col_of(l, k)) % 3,
        sublattice_of(l, right_of(l, k)) == (sublattice_of(l, k) + 1) % 3,
        sublattice_of(l, bottom_of(l, k)) == (sublattice_of(l, k) + 1) % 3,
        sublattice_of(l, layer_up_of(l, h, k)) == sublattice_of(l, k),
{
    lemma_index_coordinates(l, h, k);
    let (hh, i, j) = (layer_of(l, k), row_of(l, k), col_of(l, k));
    lemma_mod_bound(j + 1, l);
    lemma_mod_bound(i + 1, l);
    lemma_mod_bound(hh + 1, h);
    lemma_sublattice_is_row_plus_col(l, h, hh, i, j);
    lemma_sublattice_is_row_plus_col(l, h, hh, i, (j + 1) % l);
    lemma_sublattice_is_row_plus_col(l, h, hh, (i + 1) % l, j);
    lemma_sublattice_is_row_plus_col(l, h, (hh + 1) % h, i, j);
    let m = l / 3;
    if j == l - 1 {
        assert((j + 1) % l == 0) by (nonlinear_arith) requires j + 1 == l, l > 0;
        assert((i + 0) % 3 == ((i + j) % 3 + 1) % 3) by (nonlinear_arith)
            requires j == l - 1, l == 3 * m;
    } else {
        vstd::arithmetic::div_mod::lemma_small_mod((j + 1) as nat, l as nat);
        assert((i + (j + 1)) % 3 == ((i + j) % 3 + 1) % 3) by (nonlinear_arith);
    }
    if i == l - 1 {
        assert((i + 1) % l == 0) by (nonlinear_arith) requires i + 1 == l, l > 0;
        assert((0 + j) % 3 == ((i + j) % 3 + 1) % 3) by (nonlinear_arith)
            requires i == l - 1, l == 3 * m;
    } else {
        vstd::arithmetic::div_mod::lemma_small_mod((i + 1) as nat, l as nat);
        assert(((i + 1) + j) % 3 == ((i + j) % 3 + 1) % 3) by (nonlinear_arith);
    }
}

/// Number of the first `n` sites of row `i` of layer `hh` on sublattice `tag`.
pub open spec fn row_tag_count(l: int, hh: int, i: int, tag: int, n: int) -> int
    decreases n,
{
    if n <= 0 {
        0
    } else {
        row_tag_count(l, hh, i, tag, n - 1) + if sublattice_of(l, site_index(l, hh, i, n - 1)) == tag {
            1int
        } else {
            0int
        }
    }
}

/// Number of the first `n` sites of column `j` of layer `hh` on sublattice `tag`.
pub open spec fn col_tag_count(l: int, hh: int, j: int, tag: int, n: int) -> int
    decreases n,
{
    if n <= 0 {
        0
    } else {
        col_tag_count(l, hh, j, tag, n - 1) + if sublattice_of(l, site_index(l, hh, n - 1, j)) == tag {
            1int
        } else {
            0int
        }
    }
}

proof fn lemma_tag_counts_upto(l: int, h: int, hh: int, line: int, tag: int, m: int)
    requires
        l > 0,
        l % 3 == 0,
        0 <= hh < h,
        0 <= line < l,
        0 <= tag < 3,
        0 <= m,
        3 * m <= l,
    ensures
        row_tag_count(l, hh, line, tag, 3 * m) == m,
        col_tag_count(l, hh, line, tag, 3 * m) == m,
    decreases m,
{
    if m > 0 {
        lemma_tag_counts_upto(l, h, hh, line, tag, m - 1);
        let b = 3 * (m - 1);
        lemma_sublattice_is_row_plus_col(l, h, hh, line, b);
        lemma_sublattice_is_row_plus_col(l, h, hh, line, b + 1);
        lemma_sublattice_is_row_plus_col(l, h, hh, line, b + 2);
        lemma_sublattice_is_row_plus_col(l, h, hh, b, line);
        lemma_sublattice_is_row_plus_col(l, h, hh, b + 1, line);
        lemma_sublattice_is_row_plus_col(l, h, hh, b + 2, line);
        let ind = |x: int| if (line + x) % 3 == tag { 1int } else { 0int };
        assert(row_tag_count(l, hh, line, tag, b + 1) == row_tag_count(l, hh, line, tag, b) + ind(b));
        assert(row_tag_count(l, hh, line, tag, b + 2) == row_tag_count(l, hh, line, tag, b + 1) + ind(b + 1));
        assert(row_tag_count(l, hh, line, tag, b + 3) == row_tag_count(l, hh, line, tag, b + 2) + ind(b + 2));
        assert(col_tag_count(l, hh, line, tag, b + 1) == col_tag_count(l, hh, line, tag, b) + ind(b));
        assert(col_tag_count(l, hh, line, tag, b + 2) == col_tag_count(l, hh, line, tag, b + 1) + ind(b + 1));
        assert(col_tag_count(l, hh, line, tag, b + 3) == col_tag_count(l, hh, line, tag, b + 2) + ind(b + 2));
        assert(ind(b) + ind(b + 1) + ind(b + 2) == 1);
    }
}

/// With `L` a multiple of three, every full row and every full column of
/// every layer holds exactly `L / 3` sites of each sublattice.
pub proof fn lemma_sublattice_balance(l: int, h: int, hh: int, line: int, tag: int)
    requires
        l > 0,
        l % 3 == 0,
        0 <= hh < h,
        0 <= line < l,
        0 <= tag < 3,
    ensures
        row_tag_count(l, hh, line, tag, l) == l / 3,
        col_tag_count(l, hh, line, tag, l) == l / 3,
{
    lemma_tag_counts_upto(l, h, hh, line, tag, l / 3);
}

} // verus!
