//! The QUBO form of the effective Hamiltonian of the layered lattice.
//!
//! An Ising bond `k * s_a * s_b` with `s = 2x - 1` becomes
//! `4k x_a x_b - 2k x_a - 2k x_b + k` over binary variables `x`. In-plane
//! bonds enter with their coupling, bonds between consecutive Trotter
//! layers with its negation.
use vstd::prelude::*;
use crate::config::{Jxx, MAX_NODES};
use crate::lattice::{
    Node,
    right_of,
    bottom_of,
    btm_right_of,
    row_of,
    col_of,
    layer_of,
    lemma_index_coordinates,
    lattice_wf,
    node_wf,
    lemma_neighbors_in_range,
    lemma_chain_step,
};
use crate::polynomial::{
    Term,
    Polynomial,
    consolidate,
    consolidated,
    monomial_ok,
    terms_view,
};

verus! {

/// The three in-plane edge directions leaving a site.
#[derive(Debug, Clone, Copy, PartialEq, Eq, Structural)]
pub enum Direction {
    Right,
    Bottom,
    BtmRight,
}

/// The edge from `idx` to `n` in direction `d` crosses the lattice boundary:
/// a right edge going back to a smaller index, a bottom or bottom-right edge
/// not reaching the site one row (and one column) further on.
pub open spec fn wraps(idx: int, n: int, l: int, d: Direction) -> bool {
    match d {
        Direction::Right => n < idx,
        Direction::Bottom => n != idx + l,
        Direction::BtmRight => n != idx + l + 1,
    }
}

/// Whether the edge from `idx` to `iter_idx` in `direction` wraps around
/// the lattice boundary.
pub fn is_cycle(idx: usize, iter_idx: usize, side_length: usize, direction: Direction) -> (r: bool)
    requires
        idx + side_length + 1 <= usize::MAX,
    ensures
        r == wraps(idx as int, iter_idx as int, side_length as int, direction),
{
    match direction {
        Direction::Right => {
            if iter_idx < idx {
                return true;
            }
        },
        Direction::Bottom => {
            if iter_idx != idx + side_length {
                return true;
            }
        },
        Direction::BtmRight => {
            if iter_idx != idx + side_length + 1 {
                return true;
            }
        },
    }
    false
}

/// The four monomials of the bond `k * s_a * s_b`.
pub open spec fn bond_monomials(a: usize, b: usize, k: int) -> Seq<(int, Seq<usize>)> {
    seq![(4 * k, seq![a, b]), (-2 * k, seq![a]), (-2 * k, seq![b]), (k, Seq::<usize>::empty())]
}

/// Monomials of one in-plane edge, none if it is suppressed.
pub open spec fn edge_monomials(
    idx: usize,
    n: usize,
    k: int,
    l: int,
    d: Direction,
    without_cycle: bool,
) -> Seq<(int, Seq<usize>)> {
    if without_cycle && wraps(idx as int, n as int, l, d) {
        Seq::empty()
    } else {
        bond_monomials(idx, n, k)
    }
}

/// Monomials of the three in-plane edges leaving site `idx`.
pub open spec fn front_monomials(
    nodes: Seq<Node>,
    l: int,
    idx: int,
    without_cycle: bool,
) -> Seq<(int, Seq<usize>)> {
    let n = nodes[idx];
    edge_monomials(idx as usize, n.right, n.j_right as int, l, Direction::Right, without_cycle)
        + edge_monomials(idx as usize, n.bottom, n.j_bottom as int, l, Direction::Bottom, without_cycle)
        + edge_monomials(idx as usize, n.btm_right, n.j_btm_right as int, l, Direction::BtmRight, without_cycle)
}

/// In-plane monomials of sites `0 .. count`, site by site.
pub open spec fn all_front_monomials(
    nodes: Seq<Node>,
    l: int,
    without_cycle: bool,
    count: int,
) -> Seq<(int, Seq<usize>)>
    decreases count,
{
    if count <= 0 {
        Seq::empty()
    } else {
        all_front_monomials(nodes, l, without_cycle, count - 1) + front_monomials(
            nodes,
            l,
            count - 1,
            without_cycle,
        )
    }
}

/// Monomials of the bond between the copy of base site `start` in layer `s`
/// and its copy in the next layer, with the layer coupling negated.
pub open spec fn layer_bond_monomials(
    nodes: Seq<Node>,
    l: int,
    h: int,
    start: int,
    s: int,
) -> Seq<(int, Seq<usize>)> {
    let cur = start + s * (l * l);
    let next = start + ((s + 1) % h) * (l * l);
    bond_monomials(cur as usize, next as usize, -(nodes[cur].j_layer_up as int))
}

/// Monomials of the first `steps` bonds of the layer chain above `start`.
pub open spec fn chain_monomials(
    nodes: Seq<Node>,
    l: int,
    h: int,
    start: int,
    steps: int,
) -> Seq<(int, Seq<usize>)>
    decreases steps,
{
    if steps <= 0 {
        Seq::empty()
    } else {
        chain_monomials(nodes, l, h, start, steps - 1) + layer_bond_monomials(
            nodes,
            l,
            h,
            start,
            steps - 1,
        )
    }
}

/// Monomials of the layer chain above base site `start`: all `h` bonds of
/// the cycle, or the first `h - 1` when the closing bond is suppressed.
pub open spec fn back_monomials(
    nodes: Seq<Node>,
    l: int,
    h: int,
    start: int,
    without_cycle: bool,
) -> Seq<(int, Seq<usize>)> {
    chain_monomials(nodes, l, h, start, if without_cycle { h - 1 } else { h })
}

/// Layer-chain monomials of base sites `0 .. count`.
pub open spec fn all_back_monomials(
    nodes: Seq<Node>,
    l: int,
    h: int,
    without_cycle: bool,
    count: int,
) -> Seq<(int, Seq<usize>)>
    decreases count,
{
    if count <= 0 {
        Seq::empty()
    } else {
        all_back_monomials(nodes, l, h, without_cycle, count - 1) + back_monomials(
            nodes,
            l,
            h,
            count - 1,
            without_cycle,
        )
    }
}

/// Every monomial of the effective Hamiltonian, in the order they are
/// generated: in-plane monomials of every site, then (with more than one
/// layer) the layer-chain monomials of every base site.
pub open spec fn hamiltonian_monomials(
    nodes: Seq<Node>,
    l: int,
    h: int,
    without_cycle: bool,
) -> Seq<(int, Seq<usize>)> {
    all_front_monomials(nodes, l, without_cycle, l * l * h) + if h > 1 {
        all_back_monomials(nodes, l, h, without_cycle, l * l)
    } else {
        Seq::empty()
    }
}

/// Appends the four monomials of the bond `k * s_a * s_b`.
fn push_bond(out: &mut Vec<Term>, a: usize, b: usize, k: i128)
    requires
        -0x1_0000_0000_0000_0000 <= k <= 0x1_0000_0000_0000_0000,
    ensures
        terms_view(final(out)@) == terms_view(old(out)@) + bond_monomials(a, b, k as int),
        final(out)@.len() == old(out)@.len() + 4,
{
    let ghost before = terms_view(out@);
    let mut pair: Vec<usize> = Vec::new();
    pair.push(a);
    pair.push(b);
    let mut only_a: Vec<usize> = Vec::new();
    only_a.push(a);
    let mut only_b: Vec<usize> = Vec::new();
    only_b.push(b);
    assert(pair@ =~= seq![a, b]);
    assert(only_a@ =~= seq![a]);
    assert(only_b@ =~= seq![b]);
    out.push(Term { coefficient: 4 * k, variables: pair });
    out.push(Term { coefficient: -(2 * k), variables: only_a });
    out.push(Term { coefficient: -(2 * k), variables: only_b });
    out.push(Term { coefficient: k, variables: Vec::new() });
    assert(terms_view(out@) =~= before + bond_monomials(a, b, k as int));
}

/// Every monomial of `ms` is one the polynomial accepts.
pub open spec fn all_ok(ms: Seq<(int, Seq<usize>)>) -> bool {
    forall|q: int| 0 <= q < ms.len() ==> monomial_ok(#[trigger] ms[q])
}

proof fn lemma_concat_ok(a: Seq<(int, Seq<usize>)>, b: Seq<(int, Seq<usize>)>)
    requires
        all_ok(a),
        all_ok(b),
    ensures
        all_ok(a + b),
{
    assert forall|q: int| 0 <= q < (a + b).len() implies monomial_ok(#[trigger] (a + b)[q]) by {
        if q < a.len() {
            assert((a + b)[q] == a[q]);
        } else {
            assert((a + b)[q] == b[q - a.len()]);
        }
    }
}

proof fn lemma_bond_ok(a: usize, b: usize, k: int)
    requires
        a < MAX_NODES,
        b < MAX_NODES,
        -0x1_0000_0000_0000_0000 <= k <= 0x1_0000_0000_0000_0000,
    ensures
        all_ok(bond_monomials(a, b, k)),
{
    let ms = bond_monomials(a, b, k);
    assert(monomial_ok(ms[0]));
    assert(monomial_ok(ms[1]));
    assert(monomial_ok(ms[2]));
    assert(monomial_ok(ms[3]));
}

/// Appends the monomials of one in-plane edge, unless it is suppressed.
fn push_edge(
    out: &mut Vec<Term>,
    idx: usize,
    n: usize,
    k: i64,
    l: usize,
    d: Direction,
    without_cycle: bool,
)
    requires
        idx + l + 1 <= usize::MAX,
    ensures
        terms_view(final(out)@) == terms_view(old(out)@) + edge_monomials(
            idx,
            n,
            k as int,
            l as int,
            d,
            without_cycle,
        ),
{
    if without_cycle && is_cycle(idx, n, l, d) {
        assert(terms_view(out@) =~= terms_view(out@) + Seq::<(int, Seq<usize>)>::empty());
    } else {
        push_bond(out, idx, n, k as i128);
    }
}

/// In-plane monomials of site `i` of layer `h`.
pub fn get_front(
    nodes: &Vec<Node>,
    i: usize,
    h: usize,
    jxx: &Jxx,
    without_cycle: bool,
) -> (r: Vec<Term>)
    requires
        jxx.wf(),
        lattice_wf(nodes@, jxx.l as int, jxx.h as int),
        i < jxx.l * jxx.l,
        h < jxx.h,
    ensures
        terms_view(r@) == front_monomials(
            nodes@,
            jxx.l as int,
            h * (jxx.l * jxx.l) + i,
            without_cycle,
        ),
        all_ok(terms_view(r@)),
        r@.len() <= 12,
{
    let l = jxx.l;
    let ghost (gl, gh) = (jxx.l as int, jxx.h as int);
    assert(h * (l * l) + i < l * l * jxx.h) by (nonlinear_arith)
        requires h < jxx.h, i < l * l;
    assert(l <= l * l <= l * l * jxx.h) by (nonlinear_arith) requires jxx.h >= 1, l >= 1;
    let idx = h * (l * l) + i;
    let node = nodes[idx];
    proof {
        assert(node_wf(nodes@[idx as int], gl, gh, idx as int));
        lemma_neighbors_in_range(gl, gh, idx as int);
    }
    let mut out: Vec<Term> = Vec::new();
    push_edge(&mut out, idx, node.right, node.j_right, l, Direction::Right, without_cycle);
    push_edge(&mut out, idx, node.bottom, node.j_bottom, l, Direction::Bottom, without_cycle);
    push_edge(&mut out, idx, node.btm_right, node.j_btm_right, l, Direction::BtmRight, without_cycle);
    proof {
        let e1 = edge_monomials(idx, node.right, node.j_right as int, gl, Direction::Right, without_cycle);
        let e2 = edge_monomials(idx, node.bottom, node.j_bottom as int, gl, Direction::Bottom, without_cycle);
        let e3 = edge_monomials(idx, node.btm_right, node.j_btm_right as int, gl, Direction::BtmRight, without_cycle);
        assert(terms_view(out@) =~= e1 + e2 + e3);
        lemma_bond_ok(idx, node.right, node.j_right as int);
        lemma_bond_ok(idx, node.bottom, node.j_bottom as int);
        lemma_bond_ok(idx, node.btm_right, node.j_btm_right as int);
        assert(all_ok(Seq::<(int, Seq<usize>)>::empty()));
        lemma_concat_ok(e1, e2);
        lemma_concat_ok(e1 + e2, e3);
    }
    out
}

/// Layer-chain monomials above base site `idx`: follows `layer_up` from
/// `idx` until the chain returns to it, stopping one bond early when the
/// closing bond is suppressed.
pub fn get_back(nodes: &Vec<Node>, jxx: &Jxx, idx: usize, without_cycle: bool) -> (r: Vec<Term>)
    requires
        jxx.wf(),
        lattice_wf(nodes@, jxx.l as int, jxx.h as int),
        idx < jxx.l * jxx.l,
    ensures
        terms_view(r@) == back_monomials(nodes@, jxx.l as int, jxx.h as int, idx as int, without_cycle),
        all_ok(terms_view(r@)),
        r@.len() <= 4 * jxx.h,
{
    let l = jxx.l;
    let height = jxx.h;
    let ghost (gl, gh) = (jxx.l as int, jxx.h as int);
    assert(l * l <= l * l * height) by (nonlinear_arith) requires height >= 1;
    let l2 = l * l;
    let mut out: Vec<Term> = Vec::new();
    let mut cur = idx;
    let mut s: usize = 0;
    assert(0 * (l * l) == 0) by (nonlinear_arith);
    assert(all_ok(terms_view(out@)));
    loop
        invariant_except_break
            0 <= s < height,
            cur == idx + s * (l * l),
            terms_view(out@) == chain_monomials(nodes@, gl, gh, idx as int, s as int),
        invariant
            jxx.wf(),
            l == jxx.l,
            height == jxx.h,
            gl == l,
            gh == height,
            l2 == l * l,
            idx < l * l,
            lattice_wf(nodes@, gl, gh),
            all_ok(terms_view(out@)),
            out@.len() == 4 * s,
            s <= height,
        ensures
            terms_view(out@) == back_monomials(nodes@, gl, gh, idx as int, without_cycle),
        decreases height - s,
    {
        proof {
            lemma_chain_step(gl, gh, idx as int, s as int);
            assert(node_wf(nodes@[cur as int], gl, gh, cur as int));
        }
        let next = nodes[cur].layer_up;
        if without_cycle && next == idx {
            break;
        }
        let ghost before = terms_view(out@);
        let k = nodes[cur].j_layer_up;
        push_bond(&mut out, cur, next, -(k as i128));
        proof {
            lemma_neighbors_in_range(gl, gh, cur as int);
            lemma_bond_ok(cur, next, -(k as int));
            lemma_concat_ok(before, bond_monomials(cur, next, -(k as int)));
        }
        if next == idx {
            s = s + 1;
            break;
        }
        proof {
            assert(s + 1 < height);
            vstd::arithmetic::div_mod::lemma_small_mod((s + 1) as nat, height as nat);
        }
        cur = next;
        s = s + 1;
    }
    out
}

/// The consolidated QUBO polynomial of the effective Hamiltonian of the
/// lattice `nodes` of `jxx`.
pub fn hamiltonian_eff(nodes: &Vec<Node>, jxx: &Jxx, without_cycle: bool) -> (p: Polynomial)
    requires
        jxx.wf(),
        lattice_wf(nodes@, jxx.l as int, jxx.h as int),
    ensures
        p.wf(),
        p@ == consolidated(
            hamiltonian_monomials(nodes@, jxx.l as int, jxx.h as int, without_cycle),
        ),
{
    let l = jxx.l;
    let height = jxx.h;
    let ghost (gl, gh) = (jxx.l as int, jxx.h as int);
    assert(l * l <= l * l * height) by (nonlinear_arith) requires height >= 1;
    let l2 = l * l;
    let mut all: Vec<Term> = Vec::new();
    assert(0 * (l * l) == 0) by (nonlinear_arith);
    for hh in 0..height
        invariant
            jxx.wf(),
            l == jxx.l,
            height == jxx.h,
            gl == l,
            gh == height,
            l2 == l * l,
            lattice_wf(nodes@, gl, gh),
            terms_view(all@) == all_front_monomials(nodes@, gl, without_cycle, hh * (l * l)),
            all_ok(terms_view(all@)),
            all@.len() <= 12 * hh * (l * l),
    {
        assert(hh * (l * l) + 0 == hh * (l * l));
        assert(12 * hh * (l * l) == 12 * (hh * (l * l) + 0)) by (nonlinear_arith);
        for i in 0..l2
            invariant
                jxx.wf(),
                l == jxx.l,
                height == jxx.h,
                gl == l,
                gh == height,
                l2 == l * l,
                hh < height,
                lattice_wf(nodes@, gl, gh),
                terms_view(all@) == all_front_monomials(nodes@, gl, without_cycle, hh * (l * l) + i),
                all_ok(terms_view(all@)),
                all@.len() <= 12 * (hh * (l * l) + i),
        {
            let ghost before = terms_view(all@);
            let mut f = get_front(nodes, i, hh, jxx, without_cycle);
            let ghost fv = terms_view(f@);
            all.append(&mut f);
            proof {
                assert(terms_view(all@) =~= before + fv);
                lemma_concat_ok(before, fv);
            }
        }
        assert(hh * (l * l) + l * l == (hh + 1) * (l * l)) by (nonlinear_arith);
        assert(12 * (hh * (l * l) + l * l) == 12 * (hh + 1) * (l * l)) by (nonlinear_arith);
    }
    assert(height * (l * l) == l * l * height) by (nonlinear_arith);
    let ghost front = terms_view(all@);
    assert(12 * height * (l * l) == 12 * (l * l * height)) by (nonlinear_arith);
    if height > 1 {
        for i in 0..l2
            invariant
                jxx.wf(),
                l == jxx.l,
                height == jxx.h,
                gl == l,
                gh == height,
                l2 == l * l,
                lattice_wf(nodes@, gl, gh),
                terms_view(all@) == front + all_back_monomials(nodes@, gl, gh, without_cycle, i as int),
                all_ok(terms_view(all@)),
                all@.len() <= 12 * (l * l * height) + 4 * height * i,
        {
            let ghost before = terms_view(all@);
            let mut b = get_back(nodes, jxx, i, without_cycle);
            let ghost bv = terms_view(b@);
            all.append(&mut b);
            proof {
                assert(4 * height * i + 4 * height == 4 * height * (i + 1)) by (nonlinear_arith);
                assert(terms_view(all@) =~= before + bv);
                lemma_concat_ok(before, bv);
            }
        }
    } else {
        assert(front =~= front + Seq::<(int, Seq<usize>)>::empty());
    }
    assert(terms_view(all@) == hamiltonian_monomials(nodes@, gl, gh, without_cycle));
    assert(all@.len() <= 0x100_0000_0000) by (nonlinear_arith)
        requires all@.len() <= 12 * (l * l * height) + 4 * height * (l * l), l * l * height <= MAX_NODES;
    assert forall|q: int| 0 <= q < all@.len() implies monomial_ok(#[trigger] all@[q]@) by {
        assert(terms_view(all@)[q] == all@[q]@);
    }
    consolidate(&all)
}

/// With cycle suppression on, an in-plane edge of a lattice site is dropped
/// exactly when it crosses the lattice boundary: the right edge of a
/// last-column site, the bottom edge of a last-row site, the bottom-right
/// edge of a site in either. Every edge that is kept joins the site to
/// `k + 1`, `k + L` or `k + L + 1` respectively, without wrapping.
pub proof fn lemma_boundary_edges(l: int, h: int, k: int)
    requires
        l >= 2,
        h > 0,
        0 <= k < l * l * h,
    ensures
        wraps(k, right_of(l, k), l, Direction::Right) <==> col_of(l, k) == l - 1,
        wraps(k, bottom_of(l, k), l, Direction::Bottom) <==> row_of(l, k) == l - 1,
        wraps(k, btm_right_of(l, k), l, Direction::BtmRight) <==> (row_of(l, k) == l - 1
            || col_of(l, k) == l - 1),
        col_of(l, k) < l - 1 ==> right_of(l, k) == k + 1,
        row_of(l, k) < l - 1 ==> bottom_of(l, k) == k + l,
        row_of(l, k) < l - 1 && col_of(l, k) < l - 1 ==> btm_right_of(l, k) == k + l + 1,
{
    lemma_index_coordinates(l, h, k);
    let (hh, i, j) = (layer_of(l, k), row_of(l, k), col_of(l, k));
    let base = hh * (l * l);
    assert(k == base + i * l + j);
    if j < l - 1 {
        vstd::arithmetic::div_mod::lemma_small_mod((j + 1) as nat, l as nat);
    } else {
        assert((j + 1) % l == 0) by (nonlinear_arith) requires j + 1 == l, l > 0;
    }
    if i < l - 1 {
        vstd::arithmetic::div_mod::lemma_small_mod((i + 1) as nat, l as nat);
        assert((i + 1) * l == i * l + l) by (nonlinear_arith);
    } else {
        assert((i + 1) % l == 0) by (nonlinear_arith) requires i + 1 == l, l > 0;
        assert(0 * l == 0) by (nonlinear_arith);
        assert(i * l >= l) by (nonlinear_arith) requires i == l - 1, l >= 2;
    }
}

/// Number of in-plane edges of the site at row `i`, column `j` that cross
/// the boundary: the right edge in the last column, the bottom edge in the
/// last row, the bottom-right edge in either.
pub open spec fn site_suppressed(l: int, i: int, j: int) -> int {
    (if j == l - 1 { 1int } else { 0int }) + (if i == l - 1 { 1int } else { 0int }) + (if i == l - 1
        || j == l - 1 {
        1int
    } else {
        0int
    })
}

/// Boundary-crossing edges of the first `n` sites of row `i`.
pub open spec fn row_suppressed(l: int, i: int, n: int) -> int
    decreases n,
{
    if n <= 0 {
        0
    } else {
        row_suppressed(l, i, n - 1) + site_suppressed(l, i, n - 1)
    }
}

/// Boundary-crossing edges of the first `n` rows of a layer.
pub open spec fn layer_suppressed(l: int, n: int) -> int
    decreases n,
{
    if n <= 0 {
        0
    } else {
        layer_suppressed(l, n - 1) + row_suppressed(l, n - 1, l)
    }
}

proof fn lemma_row_suppressed(l: int, i: int, n: int)
    requires
        l >= 2,
        0 <= i < l,
        0 <= n <= l,
    ensures
        row_suppressed(l, i, n) == if i == l - 1 {
            2 * n + if n == l { 1int } else { 0int }
        } else {
            if n == l { 2int } else { 0int }
        },
    decreases n,
{
    if n > 0 {
        lemma_row_suppressed(l, i, n - 1);
    }
}

proof fn lemma_layer_suppressed(l: int, n: int)
    requires
        l >= 2,
        0 <= n <= l,
    ensures
        layer_suppressed(l, n) == 2 * n + if n == l { 2 * l - 1 } else { 0 },
    decreases n,
{
    if n > 0 {
        lemma_layer_suppressed(l, n - 1);
        lemma_row_suppressed(l, n - 1, l);
    }
}

/// With cycle suppression on, site `k` keeps four monomials for each of
/// its in-plane edges that does not cross the boundary, and each layer has
/// `4L - 1` boundary-crossing edges: `L` right edges of the last column,
/// `L` bottom edges of the last row and `2L - 1` bottom-right edges of
/// either, so `H (4L - 1)` in-plane edges are suppressed in all.
pub proof fn lemma_suppressed_count(nodes: Seq<Node>, l: int, h: int, k: int)
    requires
        l >= 2,
        lattice_wf(nodes, l, h),
        0 <= k < l * l * h,
    ensures
        front_monomials(nodes, l, k, true).len() == 4 * (3 - site_suppressed(
            l,
            row_of(l, k),
            col_of(l, k),
        )),
        layer_suppressed(l, l) == 4 * l - 1,
        forall|q: int|
            0 <= q < front_monomials(nodes, l, k, true).len() && (#[trigger] front_monomials(
                nodes,
                l,
                k,
                true,
            )[q]).1.len() == 2 ==> {
                let n = front_monomials(nodes, l, k, true)[q].1[1] as int;
                &&& front_monomials(nodes, l, k, true)[q].1[0] == k
                &&& (n == k + 1 && col_of(l, k) < l - 1) || (n == k + l && row_of(l, k) < l - 1) || (n
                    == k + l + 1 && row_of(l, k) < l - 1 && col_of(l, k) < l - 1)
            },
{
    lemma_layer_suppressed(l, l);
    lemma_boundary_edges(l, h, k);
    lemma_neighbors_in_range(l, h, k);
    lemma_index_coordinates(l, h, k);
    assert(node_wf(nodes[k], l, h, k));
    let nd = nodes[k];
    let e1 = edge_monomials(k as usize, nd.right, nd.j_right as int, l, Direction::Right, true);
    let e2 = edge_monomials(k as usize, nd.bottom, nd.j_bottom as int, l, Direction::Bottom, true);
    let e3 = edge_monomials(k as usize, nd.btm_right, nd.j_btm_right as int, l, Direction::BtmRight, true);
    let f = front_monomials(nodes, l, k, true);
    assert(f == e1 + e2 + e3);
    assert forall|q: int| 0 <= q < f.len() && (#[trigger] f[q]).1.len() == 2 implies {
        let n = f[q].1[1] as int;
        &&& f[q].1[0] == k
        &&& (n == k + 1 && col_of(l, k) < l - 1) || (n == k + l && row_of(l, k) < l - 1) || (n == k
            + l + 1 && row_of(l, k) < l - 1 && col_of(l, k) < l - 1)
    } by {
        assert(nd.index == k);
        if q < e1.len() {
            assert(f[q] == e1[q]);
            lemma_bond_pair(k as usize, nd.right, nd.j_right as int, q);
        } else if q < e1.len() + e2.len() {
            assert(f[q] == e2[q - e1.len()]);
            lemma_bond_pair(k as usize, nd.bottom, nd.j_bottom as int, q - e1.len());
        } else {
            assert(f[q] == e3[q - e1.len() - e2.len()]);
            lemma_bond_pair(k as usize, nd.btm_right, nd.j_btm_right as int, q - e1.len() - e2.len());
        }
    }
}

proof fn lemma_bond_pair(a: usize, b: usize, k: int, q: int)
    requires
        0 <= q < 4,
        bond_monomials(a, b, k)[q].1.len() == 2,
    ensures
        bond_monomials(a, b, k)[q].1 == seq![a, b],
{
}

} // verus!
