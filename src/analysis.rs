//! The three-sublattice order parameter of returned spin configurations.
//!
//! For the sublattice magnetizations `m0, m1, m2` of one layer the order
//! parameter is `psi = (m0 + m1 w + m2 conj(w)) / sqrt(3)` with
//! `w = exp(4 pi i / 3)`. When every sublattice has `N` sites with spin sums
//! `S0, S1, S2`, `psi = (A + i sqrt(3) B) / (2 sqrt(3) N)` with
//! `A = 2 S0 - S1 - S2` and `B = S2 - S1`, so that
//! `|psi|^2 = (A^2 + 3 B^2) / (12 N^2)` and, with `u = A^2`, `v = 3 B^2`,
//! `c6 = Re(psi^6) / |psi^6| = (u^3 - 15 u^2 v + 15 u v^2 - v^3) / (u + v)^3`.
//! Both are computed exactly, as fractions of integers.
use vstd::prelude::*;

verus! {

/// Largest number of sites a configuration may list.
pub const MAX_SOLUTION_SITES: usize = 786432;

/// Largest number of sites of one sublattice in one layer.
pub open spec fn group_limit() -> int {
    0x4_0000
}

/// An exact fraction `num / den`.
#[derive(Debug, Clone, Copy, PartialEq, Eq, Structural)]
pub struct Fraction {
    pub num: i128,
    pub den: i128,
}

/// Errors found in a returned configuration.
#[derive(Debug, Clone, Copy, PartialEq, Eq, Structural)]
pub enum AnalysisError {
    /// A site index lies beyond the last layer.
    LayerOutOfRange,
    /// In some layer the three sublattices do not have the same, non-zero,
    /// number of sites.
    UnevenSublattices,
}

/// Spin sums of the three sublattices of one layer, each over `count` sites.
#[derive(Debug, Clone, Copy, PartialEq, Eq, Structural)]
pub struct ComplexColorP {
    pub m_blue: i64,
    pub m_black: i64,
    pub m_red: i64,
    pub count: i64,
}

/// `A = 2 S0 - S1 - S2`, the real part of `psi` times `2 sqrt(3) N`.
pub open spec fn psi_a(s0: int, s1: int, s2: int) -> int {
    2 * s0 - s1 - s2
}

/// `B = S2 - S1`, the imaginary part of `psi` times `2 N`.
pub open spec fn psi_b(s1: int, s2: int) -> int {
    s2 - s1
}

/// Numerator of `|psi|^2 = (A^2 + 3 B^2) / (12 N^2)`.
pub open spec fn order_p_num(a: int, b: int) -> int {
    a * a + 3 * (b * b)
}

/// Denominator of `|psi|^2`.
pub open spec fn order_p_den(n: int) -> int {
    12 * (n * n)
}

/// Numerator of `c6`: `u^3 - 15 u^2 v + 15 u v^2 - v^3`, `u = A^2`, `v = 3 B^2`.
pub open spec fn c6_num(a: int, b: int) -> int {
    let u = a * a;
    let v = 3 * (b * b);
    u * u * u - 15 * (u * u * v) + 15 * (u * v * v) - v * v * v
}

/// Denominator of `c6`: `(u + v)^3`.
pub open spec fn c6_den(a: int, b: int) -> int {
    let s = a * a + 3 * (b * b);
    s * s * s
}

impl ComplexColorP {
    /// The spin sums fit their site count, which is within [`group_limit`].
    pub open spec fn wf(&self) -> bool {
        &&& 0 < self.count <= group_limit()
        &&& -self.count <= self.m_blue <= self.count
        &&& -self.count <= self.m_black <= self.count
        &&& -self.count <= self.m_red <= self.count
    }

    pub open spec fn a(&self) -> int {
        psi_a(self.m_blue as int, self.m_black as int, self.m_red as int)
    }

    pub open spec fn b(&self) -> int {
        psi_b(self.m_black as int, self.m_red as int)
    }

    /// `psi` is zero, and so is `psi^6`.
    pub open spec fn degenerate(&self) -> bool {
        self.a() == 0 && self.b() == 0
    }

    /// Sums and counts of the three sublattices, in sublattice order; `None`
    /// unless the three counts are equal and non-zero.
    pub fn new(m_color_params: [i64; 3], m_each_count: [i64; 3]) -> (r: Option<ComplexColorP>)
        requires
            forall|t: int| 0 <= t < 3 ==> 0 <= #[trigger] m_each_count[t],
            m_each_count[0] + m_each_count[1] + m_each_count[2] <= MAX_SOLUTION_SITES,
            forall|t: int|
                0 <= t < 3 ==> -m_each_count[t] <= #[trigger] m_color_params[t] <= m_each_count[t],
        ensures
            r is Some <==> (m_each_count[0] == m_each_count[1] && m_each_count[1] == m_each_count[2]
                && m_each_count[0] > 0),
            r matches Some(c) ==> c.wf() && c == (ComplexColorP {
                m_blue: m_color_params[0],
                m_black: m_color_params[1],
                m_red: m_color_params[2],
                count: m_each_count[0],
            }),
    {
        let n = m_each_count[0];
        if n == 0 || m_each_count[1] != n || m_each_count[2] != n {
            return None;
        }
        Some(
            ComplexColorP {
                m_blue: m_color_params[0],
                m_black: m_color_params[1],
                m_red: m_color_params[2],
                count: n,
            },
        )
    }

    /// `(|psi|^2, c6)`, both exact; both zero when `psi` is zero.
    pub fn get_order_parameter(&self) -> (r: (Fraction, Fraction))
        requires
            self.wf(),
        ensures
            r.0.num == order_p_num(self.a(), self.b()),
            r.0.den == order_p_den(self.count as int),
            self.degenerate() ==> r.1 == (Fraction { num: 0, den: 1 }),
            !self.degenerate() ==> r.1.num == c6_num(self.a(), self.b()) && r.1.den == c6_den(
                self.a(),
                self.b(),
            ),
            r.0.den > 0,
            r.1.den > 0,
    {
        let n = self.count as i128;
        let a: i128 = 2 * (self.m_blue as i128) - self.m_black as i128 - self.m_red as i128;
        let b: i128 = self.m_red as i128 - self.m_black as i128;
        assert(0 <= a * a <= 0x100_0000_0000) by (nonlinear_arith)
            requires -0x10_0000 <= a <= 0x10_0000;
        assert(0 <= b * b <= 0x40_0000_0000) by (nonlinear_arith)
            requires -0x8_0000 <= b <= 0x8_0000;
        assert(0 < n * n <= 0x10_0000_0000) by (nonlinear_arith) requires 0 < n <= 0x4_0000;
        let u = a * a;
        let v = 3 * (b * b);
        let s = u + v;
        let order_p = Fraction { num: s, den: 12 * (n * n) };
        if a == 0 && b == 0 {
            return (order_p, Fraction { num: 0, den: 1 });
        }
        assert(s > 0) by (nonlinear_arith)
            requires s == a * a + 3 * (b * b), a != 0 || b != 0;
        let ghost bound: int = 0x100_0000_0000;
        assert(0 <= u * u <= bound * bound && 0 <= v * v <= bound * bound && 0 <= u * v <= bound * bound)
            by (nonlinear_arith)
            requires 0 <= u <= bound, 0 <= v <= bound;
        let uu = u * u;
        let vv = v * v;
        let uv = u * v;
        assert(0 <= uu * u <= bound * bound * bound && 0 <= uu * v <= bound * bound * bound && 0
            <= uv * v <= bound * bound * bound && 0 <= vv * v <= bound * bound * bound)
            by (nonlinear_arith)
            requires 0 <= u <= bound, 0 <= v <= bound, 0 <= uu <= bound * bound, 0 <= uv <= bound
                * bound, 0 <= vv <= bound * bound;
        assert(bound * bound * bound == 0x100_0000_0000_0000_0000_0000_0000_0000);
        assert(0 < s * s <= 4 * bound * bound && 0 < s * s * s <= 8 * bound * bound * bound)
            by (nonlinear_arith)
            requires 0 < s <= 2 * bound;
        let num = uu * u - 15 * (uu * v) + 15 * (uv * v) - vv * v;
        let den = s * s * s;
        proof {
            let (ai, bi) = (a as int, b as int);
            assert(u * u * u == uu * u && u * u * v == uu * v && u * v * v == uv * v && v * v * v
                == vv * v);
            assert(ai == self.a() && bi == self.b());
        }
        (order_p, Fraction { num, den })
    }
}

/// Layer of the site with index `key` on a lattice of side `l`.
pub open spec fn entry_layer(l: int, key: int) -> int {
    key / (l * l)
}

/// Sublattice number of the site with index `key`, from its place in its layer.
pub open spec fn entry_tag(l: int, key: int) -> int {
    let r = key % (l * l);
    ((r / l) + r) % 3
}

/// Number of entries of `cfg` on sublattice `tag` of layer `layer`.
pub open spec fn group_count(cfg: Seq<(u64, bool)>, l: int, layer: int, tag: int) -> int
    decreases cfg.len(),
{
    if cfg.len() == 0 {
        0
    } else {
        group_count(cfg.drop_last(), l, layer, tag) + if entry_layer(l, cfg.last().0 as int) == layer
            && entry_tag(l, cfg.last().0 as int) == tag {
            1int
        } else {
            0int
        }
    }
}

/// Sum of the spins (`+1` up, `-1` down) of the entries of `cfg` on
/// sublattice `tag` of layer `layer`.
pub open spec fn group_sum(cfg: Seq<(u64, bool)>, l: int, layer: int, tag: int) -> int
    decreases cfg.len(),
{
    if cfg.len() == 0 {
        0
    } else {
        group_sum(cfg.drop_last(), l, layer, tag) + if entry_layer(l, cfg.last().0 as int) == layer
            && entry_tag(l, cfg.last().0 as int) == tag {
            if cfg.last().1 {
                1int
            } else {
                -1int
            }
        } else {
            0int
        }
    }
}

/// Every entry of `cfg` lies in one of the `h` layers.
pub open spec fn in_range(cfg: Seq<(u64, bool)>, l: int, h: int) -> bool {
    forall|q: int| 0 <= q < cfg.len() ==> entry_layer(l, #[trigger] cfg[q].0 as int) < h
}

/// The three sublattices of layer `layer` have the same, non-zero, number
/// of entries.
pub open spec fn layer_balanced(cfg: Seq<(u64, bool)>, l: int, layer: int) -> bool {
    &&& group_count(cfg, l, layer, 0) == group_count(cfg, l, layer, 1)
    &&& group_count(cfg, l, layer, 1) == group_count(cfg, l, layer, 2)
    &&& group_count(cfg, l, layer, 0) > 0
}

/// What is wrong with configuration `cfg`, if anything.
pub open spec fn config_error(cfg: Seq<(u64, bool)>, l: int, h: int) -> Option<AnalysisError> {
    if !in_range(cfg, l, h) {
        Some(AnalysisError::LayerOutOfRange)
    } else if exists|layer: int| 0 <= layer < h && !#[trigger] layer_balanced(cfg, l, layer) {
        Some(AnalysisError::UnevenSublattices)
    } else {
        None
    }
}

/// Order parameter of one layer of one configuration.
#[derive(Debug, Clone, Copy, PartialEq, Eq, Structural)]
pub struct LayerOrder {
    pub layer: usize,
    /// `|psi|^2`.
    pub order_p: Fraction,
    pub c6: Fraction,
    /// `psi` is zero: `order_p` and `c6` are zero and the layer is not reported.
    pub skipped: bool,
}

/// `order_p`, `c6` and `skipped` are those of `|psi|^2 = (A^2 + 3B^2) / (12N^2)`
/// for `A = psi_a(...)`, `B = psi_b(...)` and `N` sites per sublattice.
pub open spec fn order_matches(order_p: Fraction, c6: Fraction, skipped: bool, a: int, b: int, n: int) -> bool {
    &&& order_p.num == order_p_num(a, b)
    &&& order_p.den == order_p_den(n)
    &&& skipped == (a == 0 && b == 0)
    &&& skipped ==> c6 == (Fraction { num: 0, den: 1 })
    &&& !skipped ==> c6.num == c6_num(a, b) && c6.den == c6_den(a, b)
}

/// `o` is the order parameter of layer `layer` of configuration `cfg`.
pub open spec fn layer_order_ok(o: LayerOrder, cfg: Seq<(u64, bool)>, l: int, layer: int) -> bool {
    let a = psi_a(group_sum(cfg, l, layer, 0), group_sum(cfg, l, layer, 1), group_sum(cfg, l, layer, 2));
    let b = psi_b(group_sum(cfg, l, layer, 1), group_sum(cfg, l, layer, 2));
    &&& o.layer == layer
    &&& order_matches(o.order_p, o.c6, o.skipped, a, b, group_count(cfg, l, layer, 0))
}

proof fn lemma_group_step(cfg: Seq<(u64, bool)>, l: int, i: int, layer: int, tag: int)
    requires
        0 <= i < cfg.len(),
    ensures
        cfg.take(i + 1).drop_last() == cfg.take(i),
        cfg.take(i + 1).last() == cfg[i],
        group_count(cfg.take(i + 1), l, layer, tag) == group_count(cfg.take(i), l, layer, tag) + if entry_layer(l, cfg[i].0 as int) == layer
            && entry_tag(l, cfg[i].0 as int) == tag {
            1int
        } else {
            0int
        },
        group_sum(cfg.take(i + 1), l, layer, tag) == group_sum(cfg.take(i), l, layer, tag) + if entry_layer(l, cfg[i].0 as int) == layer
            && entry_tag(l, cfg[i].0 as int) == tag {
            if cfg[i].1 {
                1int
            } else {
                -1int
            }
        } else {
            0int
        },
{
    assert(cfg.take(i + 1).drop_last() =~= cfg.take(i));
}

/// Order parameter and `c6` of every layer of one configuration, given as
/// (site index, spin) pairs.
pub fn calc_c6_order_p(config: &Vec<(u64, bool)>, length: usize, height: usize) -> (r: Result<
    Vec<LayerOrder>,
    AnalysisError,
>)
    requires
        length > 0,
        height > 0,
        length * length * height <= crate::config::MAX_NODES,
        config@.len() <= MAX_SOLUTION_SITES,
    ensures
        match r {
            Ok(v) => {
                &&& config_error(config@, length as int, height as int) is None
                &&& v@.len() == height
                &&& forall|layer: int|
                    0 <= layer < height ==> layer_order_ok(
                        #[trigger] v@[layer],
                        config@,
                        length as int,
                        layer,
                    )
            },
            Err(e) => config_error(config@, length as int, height as int) == Some(e),
        },
{
    let ghost cfg = config@;
    let ghost gl = length as int;
    assert(length * length <= length * length * height) by (nonlinear_arith) requires height >= 1;
    assert(length * length > 0) by (nonlinear_arith) requires length > 0;
    assert(height <= length * length * height) by (nonlinear_arith)
        requires length * length > 0, height > 0;
    let l2 = (length * length) as u64;
    let mut counts: Vec<i64> = Vec::new();
    let mut sums: Vec<i64> = Vec::new();
    for x in 0..3 * height
        invariant
            counts@.len() == x,
            sums@.len() == x,
            forall|y: int| 0 <= y < x ==> counts@[y] == 0 && sums@[y] == 0,
    {
        counts.push(0);
        sums.push(0);
    }
    assert(cfg.take(0) =~= Seq::<(u64, bool)>::empty());
    assert forall|layer: int, tag: int| 0 <= layer < height && 0 <= tag < 3 implies counts@[3 * layer + tag]
        == group_count(cfg.take(0), gl, layer, tag) && sums@[3 * layer + tag] == group_sum(
        cfg.take(0),
        gl,
        layer,
        tag,
    ) by {
        assert(counts@[3 * layer + tag] == 0 && sums@[3 * layer + tag] == 0);
    }
    let mut i: usize = 0;
    while i < config.len()
        invariant
            0 <= i <= cfg.len(),
            cfg == config@,
            gl == length,
            length > 0,
            height > 0,
            l2 == length * length,
            0 < l2 <= crate::config::MAX_NODES,
            height <= crate::config::MAX_NODES,
            length * length * height <= crate::config::MAX_NODES,
            cfg.len() <= MAX_SOLUTION_SITES,
            counts@.len() == 3 * height,
            sums@.len() == 3 * height,
            forall|q: int| 0 <= q < i ==> entry_layer(gl, #[trigger] cfg[q].0 as int) < height,
            forall|layer: int, tag: int|
                0 <= layer < height && 0 <= tag < 3 ==> counts@[3 * layer + tag] == group_count(
                    cfg.take(i as int),
                    gl,
                    layer,
                    tag,
                ) && sums@[3 * layer + tag] == group_sum(cfg.take(i as int), gl, layer, tag),
            forall|layer: int, tag: int|
                0 <= layer < height && 0 <= tag < 3 ==> 0 <= #[trigger] counts@[3 * layer + tag]
                    && -counts@[3 * layer + tag] <= sums@[3 * layer + tag] <= counts@[3 * layer + tag],
            forall|layer: int|
                0 <= layer < height ==> #[trigger] counts@[3 * layer] + counts@[3 * layer + 1]
                    + counts@[3 * layer + 2] <= i,
        decreases cfg.len() - i,
    {
        let (key, spin) = config[i];
        let layer = key / l2;
        if layer >= height as u64 {
            return Err(AnalysisError::LayerOutOfRange);
        }
        let r = key % l2;
        let tag = ((r / length as u64) + r) % 3;
        let layer = layer as usize;
        let tag = tag as usize;
        let idx = 3 * layer + tag;
        proof {
            assert(counts@[3 * layer + 0] + counts@[3 * layer + 1] + counts@[3 * layer + 2] <= i);
            assert(0 <= counts@[3 * layer + 0] && 0 <= counts@[3 * layer + 1] && 0 <= counts@[3 * layer + 2]);
            assert forall|lay: int, t: int| 0 <= lay < height && 0 <= t < 3 implies group_count(
                cfg.take(i + 1),
                gl,
                lay,
                t,
            ) == group_count(cfg.take(i as int), gl, lay, t) + if lay == layer && t == tag {
                1int
            } else {
                0int
            } && group_sum(cfg.take(i + 1), gl, lay, t) == group_sum(cfg.take(i as int), gl, lay, t)
                + if lay == layer && t == tag {
                if spin {
                    1int
                } else {
                    -1int
                }
            } else {
                0int
            } by {
                lemma_group_step(cfg, gl, i as int, lay, t);
            }
        }
        let ghost old_counts = counts@;
        let ghost old_sums = sums@;
        counts.set(idx, counts[idx] + 1);
        if spin {
            sums.set(idx, sums[idx] + 1);
        } else {
            sums.set(idx, sums[idx] - 1);
        }
        proof {
            assert forall|lay: int|
                0 <= lay < height implies #[trigger] counts@[3 * lay] + counts@[3 * lay + 1]
                + counts@[3 * lay + 2] <= i + 1 by {
                assert(old_counts[3 * lay] + old_counts[3 * lay + 1] + old_counts[3 * lay + 2] <= i);
            }
            assert forall|lay: int, t: int| 0 <= lay < height && 0 <= t < 3 implies counts@[3 * lay + t]
                == #[trigger] group_count(cfg.take(i + 1), gl, lay, t) && sums@[3 * lay + t] == group_sum(
                cfg.take(i + 1),
                gl,
                lay,
                t,
            ) by {
                lemma_group_step(cfg, gl, i as int, lay, t);
                assert(old_counts[3 * lay + t] == group_count(cfg.take(i as int), gl, lay, t));
                assert(old_sums[3 * lay + t] == group_sum(cfg.take(i as int), gl, lay, t));
                if !(lay == layer && t == tag) {
                    assert(3 * lay + t != idx);
                }
            }
        }
        i = i + 1;
    }
    assert(cfg.take(config.len() as int) =~= cfg);
    assert(in_range(cfg, gl, height as int));
    assert forall|lay: int, tag: int|
        0 <= lay < height && 0 <= tag < 3 implies counts@[3 * lay + tag] == group_count(cfg, gl, lay, tag)
        && sums@[3 * lay + tag] == group_sum(cfg, gl, lay, tag) by {
        assert(counts@[3 * lay + tag] == group_count(cfg.take(config.len() as int), gl, lay, tag));
        assert(sums@[3 * lay + tag] == group_sum(cfg.take(config.len() as int), gl, lay, tag));
    }
    let mut out: Vec<LayerOrder> = Vec::new();
    for layer in 0..height
        invariant
            cfg == config@,
            gl == length,
            height <= crate::config::MAX_NODES,
            in_range(cfg, gl, height as int),
            counts@.len() == 3 * height,
            sums@.len() == 3 * height,
            cfg.len() <= MAX_SOLUTION_SITES,
            forall|lay: int, tag: int|
                0 <= lay < height && 0 <= tag < 3 ==> counts@[3 * lay + tag] == group_count(
                    cfg,
                    gl,
                    lay,
                    tag,
                ) && sums@[3 * lay + tag] == group_sum(cfg, gl, lay, tag),
            forall|lay: int, tag: int|
                0 <= lay < height && 0 <= tag < 3 ==> 0 <= #[trigger] counts@[3 * lay + tag]
                    && -counts@[3 * lay + tag] <= sums@[3 * lay + tag] <= counts@[3 * lay + tag],
            forall|lay: int|
                0 <= lay < height ==> #[trigger] counts@[3 * lay] + counts@[3 * lay + 1]
                    + counts@[3 * lay + 2] <= cfg.len(),
            forall|lay: int| 0 <= lay < layer ==> #[trigger] layer_balanced(cfg, gl, lay),
            out@.len() == layer,
            forall|lay: int| 0 <= lay < layer ==> layer_order_ok(#[trigger] out@[lay], cfg, gl, lay),
    {
        let base = 3 * layer;
        let sum3 = [sums[base], sums[base + 1], sums[base + 2]];
        let count3 = [counts[base], counts[base + 1], counts[base + 2]];
        proof {
            assert(counts@[3 * layer + 0] + counts@[3 * layer + 1] + counts@[3 * layer + 2] <= cfg.len());
            assert(0 <= counts@[3 * layer + 0] && 0 <= counts@[3 * layer + 1] && 0 <= counts@[3 * layer + 2]);
            assert(-counts@[3 * layer + 0] <= sums@[3 * layer + 0] <= counts@[3 * layer + 0]);
            assert(-counts@[3 * layer + 1] <= sums@[3 * layer + 1] <= counts@[3 * layer + 1]);
            assert(-counts@[3 * layer + 2] <= sums@[3 * layer + 2] <= counts@[3 * layer + 2]);
        }
        match ComplexColorP::new(sum3, count3) {
            None => {
                assert(!layer_balanced(cfg, gl, layer as int));
                return Err(AnalysisError::UnevenSublattices);
            },
            Some(c) => {
                let (order_p, c6) = c.get_order_parameter();
                let skipped = order_p.num == 0;
                proof {
                    assert(skipped == c.degenerate()) by (nonlinear_arith)
                        requires order_p.num == c.a() * c.a() + 3 * (c.b() * c.b()),
                        skipped == (order_p.num == 0), c.degenerate() == (c.a() == 0 && c.b() == 0);
                }
                out.push(LayerOrder { layer, order_p, c6, skipped });
            },
        }
    }
    Ok(out)
}

/// `A` of layer `layer` of `cfg`.
pub open spec fn layer_a(cfg: Seq<(u64, bool)>, l: int, layer: int) -> int {
    psi_a(group_sum(cfg, l, layer, 0), group_sum(cfg, l, layer, 1), group_sum(cfg, l, layer, 2))
}

/// `B` of layer `layer` of `cfg`.
pub open spec fn layer_b(cfg: Seq<(u64, bool)>, l: int, layer: int) -> int {
    psi_b(group_sum(cfg, l, layer, 1), group_sum(cfg, l, layer, 2))
}

/// `psi` of layer `layer` of `cfg` is zero.
pub open spec fn layer_degenerate(cfg: Seq<(u64, bool)>, l: int, layer: int) -> bool {
    layer_a(cfg, l, layer) == 0 && layer_b(cfg, l, layer) == 0
}

/// One reported (configuration, layer) pair.
#[derive(Debug, Clone, Copy, PartialEq, Eq, Structural)]
pub struct AnalysisRecord {
    pub config_index: usize,
    pub layer: usize,
    pub order_p: Fraction,
    pub c6: Fraction,
}

/// Result of analysing a batch of configurations.
#[derive(Debug, Clone)]
pub struct BatchAnalysis {
    /// The non-degenerate (configuration, layer) pairs, in order.
    pub records: Vec<AnalysisRecord>,
    /// Number of degenerate pairs left out.
    pub skipped: usize,
}

/// The configurations of `cfgs` as sequences of entries.
pub open spec fn configs_view(cfgs: Seq<Vec<(u64, bool)>>) -> Seq<Seq<(u64, bool)>> {
    cfgs.map_values(|c: Vec<(u64, bool)>| c@)
}

/// `rec` reports a non-degenerate layer of one of `cfgs`, with its values.
pub open spec fn record_ok(rec: AnalysisRecord, cfgs: Seq<Seq<(u64, bool)>>, l: int, h: int) -> bool {
    let cfg = cfgs[rec.config_index as int];
    &&& rec.config_index < cfgs.len()
    &&& rec.layer < h
    &&& !layer_degenerate(cfg, l, rec.layer as int)
    &&& order_matches(
        rec.order_p,
        rec.c6,
        false,
        layer_a(cfg, l, rec.layer as int),
        layer_b(cfg, l, rec.layer as int),
        group_count(cfg, l, rec.layer as int, 0),
    )
}

/// `(c1, l1)` comes before `(c2, l2)`, configuration first.
pub open spec fn pair_before(c1: int, l1: int, c2: int, l2: int) -> bool {
    c1 < c2 || (c1 == c2 && l1 < l2)
}

/// Analyses every layer of every configuration. Degenerate layers (`psi`
/// zero) are counted in `skipped`; the others are reported in order, so
/// that reported and skipped pairs together number `configs.len() * height`.
/// Fails with the error of the first faulty configuration.
pub fn analyze_solutions(configs: &Vec<Vec<(u64, bool)>>, length: usize, height: usize) -> (r: Result<
    BatchAnalysis,
    AnalysisError,
>)
    requires
        length > 0,
        height > 0,
        length * length * height <= crate::config::MAX_NODES,
        configs@.len() * height <= usize::MAX,
        forall|c: int| 0 <= c < configs@.len() ==> (#[trigger] configs@[c])@.len() <= MAX_SOLUTION_SITES,
    ensures
        match r {
            Ok(b) => {
                &&& forall|c: int|
                    0 <= c < configs@.len() ==> config_error(
                        #[trigger] configs@[c]@,
                        length as int,
                        height as int,
                    ) is None
                &&& b.records@.len() + b.skipped == configs@.len() * height
                &&& forall|k: int|
                    0 <= k < b.records@.len() ==> record_ok(
                        #[trigger] b.records@[k],
                        configs_view(configs@),
                        length as int,
                        height as int,
                    )
                &&& forall|k1: int, k2: int|
                    0 <= k1 < k2 < b.records@.len() ==> pair_before(
                        #[trigger] b.records@[k1].config_index as int,
                        b.records@[k1].layer as int,
                        #[trigger] b.records@[k2].config_index as int,
                        b.records@[k2].layer as int,
                    )
                &&& forall|c: int, layer: int|
                    0 <= c < configs@.len() && 0 <= layer < height && !#[trigger] layer_degenerate(configs@[c]@,
                        length as int,
                        layer,
                    ) ==> exists|k: int|
                        0 <= k < b.records@.len() && #[trigger] b.records@[k].config_index == c
                            && b.records@[k].layer == layer
            },
            Err(e) => exists|c: int|
                0 <= c < configs@.len() && config_error(#[trigger] configs@[c]@, length as int, height as int)
                    == Some(e) && forall|d: int|
                    0 <= d < c ==> config_error(#[trigger] configs@[d]@, length as int, height as int) is None,
        },
{
    let ghost cv = configs_view(configs@);
    let ghost gl = length as int;
    let ghost gh = height as int;
    let mut records: Vec<AnalysisRecord> = Vec::new();
    let mut skipped: usize = 0;
    let mut ci: usize = 0;
    while ci < configs.len()
        invariant
            0 <= ci <= configs@.len(),
            cv == configs_view(configs@),
            gl == length,
            gh == height,
            length > 0,
            height > 0,
            length * length * height <= crate::config::MAX_NODES,
            configs@.len() * height <= usize::MAX,
            forall|c: int| 0 <= c < configs@.len() ==> (#[trigger] configs@[c])@.len() <= MAX_SOLUTION_SITES,
            forall|c: int| 0 <= c < ci ==> config_error(#[trigger] configs@[c]@, gl, gh) is None,
            records@.len() + skipped == ci * height,
            forall|k: int| 0 <= k < records@.len() ==> record_ok(#[trigger] records@[k], cv, gl, gh),
            forall|k: int| 0 <= k < records@.len() ==> #[trigger] records@[k].config_index < ci,
            forall|k1: int, k2: int|
                0 <= k1 < k2 < records@.len() ==> pair_before(
                    #[trigger] records@[k1].config_index as int,
                    records@[k1].layer as int,
                    #[trigger] records@[k2].config_index as int,
                    records@[k2].layer as int,
                ),
            forall|c: int, layer: int|
                0 <= c < ci && 0 <= layer < height && !#[trigger] layer_degenerate(configs@[c]@, gl, layer)
                    ==> exists|k: int|
                    0 <= k < records@.len() && #[trigger] records@[k].config_index == c
                        && records@[k].layer == layer,
        decreases configs@.len() - ci,
    {
        let orders = match calc_c6_order_p(&configs[ci], length, height) {
            Ok(v) => v,
            Err(e) => {
                return Err(e);
            },
        };
        let ghost cfg = configs@[ci as int]@;
        assert(cv[ci as int] == cfg);
        let mut layer: usize = 0;
        while layer < height
            invariant
                0 <= layer <= height,
                0 <= ci < configs@.len(),
                cfg == configs@[ci as int]@,
                cv == configs_view(configs@),
                cv[ci as int] == cfg,
                gl == length,
                gh == height,
                orders@.len() == height,
                forall|lay: int| 0 <= lay < height ==> layer_order_ok(#[trigger] orders@[lay], cfg, gl, lay),
                configs@.len() * height <= usize::MAX,
                records@.len() + skipped == ci * height + layer,
                forall|k: int| 0 <= k < records@.len() ==> record_ok(#[trigger] records@[k], cv, gl, gh),
                forall|k: int|
                    0 <= k < records@.len() ==> pair_before(
                        #[trigger] records@[k].config_index as int,
                        records@[k].layer as int,
                        ci as int,
                        layer as int,
                    ),
                forall|k1: int, k2: int|
                    0 <= k1 < k2 < records@.len() ==> pair_before(
                        #[trigger] records@[k1].config_index as int,
                        records@[k1].layer as int,
                        #[trigger] records@[k2].config_index as int,
                        records@[k2].layer as int,
                    ),
                forall|c: int, lay: int|
                    0 <= c < ci && 0 <= lay < height && !#[trigger] layer_degenerate(configs@[c]@, gl, lay)
                        ==> exists|k: int|
                        0 <= k < records@.len() && #[trigger] records@[k].config_index == c
                            && records@[k].layer == lay,
                forall|lay: int|
                    0 <= lay < layer && !layer_degenerate(cfg, gl, lay) ==> exists|k: int|
                        0 <= k < records@.len() && #[trigger] records@[k].config_index == ci
                            && records@[k].layer == lay,
            decreases height - layer,
        {
            let o = orders[layer];
            assert(layer_order_ok(orders@[layer as int], cfg, gl, layer as int));
            assert(ci * height + layer < configs@.len() * height) by (nonlinear_arith)
                requires ci < configs@.len(), layer < height;
            if o.skipped {
                skipped = skipped + 1;
            } else {
                let ghost old_records = records@;
                records.push(AnalysisRecord { config_index: ci, layer, order_p: o.order_p, c6: o.c6 });
                proof {
                    let n = records@.len() - 1;
                    assert(records@[n].config_index == ci && records@[n].layer == layer);
                    assert forall|k: int| 0 <= k < old_records.len() implies records@[k] == old_records[k] by {}
                    assert forall|c: int, lay: int|
                        0 <= c < ci && 0 <= lay < height && !#[trigger] layer_degenerate(configs@[c]@, gl, lay)
                        implies exists|k: int|
                        0 <= k < records@.len() && #[trigger] records@[k].config_index == c
                            && records@[k].layer == lay by {
                        let k = choose|k: int|
                            0 <= k < old_records.len() && #[trigger] old_records[k].config_index == c
                                && old_records[k].layer == lay;
                        assert(records@[k] == old_records[k]);
                    }
                    assert forall|lay: int|
                        0 <= lay < layer + 1 && !layer_degenerate(cfg, gl, lay) implies exists|k: int|
                        0 <= k < records@.len() && #[trigger] records@[k].config_index == ci
                            && records@[k].layer == lay by {
                        if lay < layer {
                            let k = choose|k: int|
                                0 <= k < old_records.len() && #[trigger] old_records[k].config_index == ci
                                    && old_records[k].layer == lay;
                            assert(records@[k] == old_records[k]);
                        } else {
                            assert(records@[n].config_index == ci && records@[n].layer == lay);
                        }
                    }
                }
            }
            layer = layer + 1;
        }
        proof {
            assert forall|c: int, lay: int|
                0 <= c < ci + 1 && 0 <= lay < height && !#[trigger] layer_degenerate(configs@[c]@, gl, lay)
                implies exists|k: int|
                0 <= k < records@.len() && #[trigger] records@[k].config_index == c
                    && records@[k].layer == lay by {
                if c == ci {
                    assert(configs@[c]@ == cfg);
                }
            }
            assert(ci * height + height == (ci + 1) * height) by (nonlinear_arith);
        }
        ci = ci + 1;
    }
    assert(records@.len() + skipped == configs@.len() * height);
    assert(forall|k: int| 0 <= k < records@.len() ==> record_ok(#[trigger] records@[k], configs_view(configs@), length as int, height as int));
    assert(forall|c: int| 0 <= c < configs@.len() ==> config_error(#[trigger] configs@[c]@, length as int, height as int) is None);
    Ok(BatchAnalysis { records, skipped })
}

} // verus!
