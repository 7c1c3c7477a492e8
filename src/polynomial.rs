//! Quadratic pseudo-Boolean polynomials with exact term consolidation.
use vstd::prelude::*;
use vstd::hash_map::HashMapWithView;

verus! {

broadcast use vstd::std_specs::hash::group_hash_axioms;

/// Largest magnitude of one monomial's coefficient that the polynomial takes.
pub open spec fn monomial_limit() -> int {
    0x4_0000_0000_0000_0000
}

/// Largest magnitude of a stored coefficient before one more monomial is added.
pub open spec fn coefficient_limit() -> int {
    0x100_0000_0000_0000_0000_0000_0000_0000
}

/// Exclusive bound of a variable index.
pub open spec fn variable_limit() -> int {
    0x8000_0000
}

/// A monomial: a coefficient times the product of the listed binary
/// variables. An empty list is the constant monomial.
#[derive(Debug, Clone)]
pub struct Term {
    pub coefficient: i128,
    pub variables: Vec<usize>,
}

impl View for Term {
    type V = (int, Seq<usize>);

    open spec fn view(&self) -> (int, Seq<usize>) {
        (self.coefficient as int, self.variables@)
    }
}

/// The views of a sequence of monomials.
pub open spec fn terms_view(ts: Seq<Term>) -> Seq<(int, Seq<usize>)> {
    ts.map_values(|t: Term| t@)
}

/// Canonical form of a variable list of at most two variables: sorted.
pub open spec fn canonical(vars: Seq<usize>) -> Seq<usize> {
    if vars.len() == 2 && vars[0] > vars[1] {
        seq![vars[1], vars[0]]
    } else {
        vars
    }
}

/// A monomial the polynomial accepts: at most two variables, each below
/// [`variable_limit`], and a coefficient within [`monomial_limit`].
pub open spec fn monomial_ok(m: (int, Seq<usize>)) -> bool {
    &&& m.1.len() <= 2
    &&& forall|v: int| 0 <= v < m.1.len() ==> m.1[v] < variable_limit()
    &&& -monomial_limit() <= m.0 <= monomial_limit()
}

/// Mathematical model of a polynomial: its non-constant terms in order of
/// first appearance, and its constant.
pub struct PolyModel {
    pub terms: Seq<(int, Seq<usize>)>,
    pub constant: int,
}

/// Position of the term with variable list `key`, or -1.
pub open spec fn key_position(terms: Seq<(int, Seq<usize>)>, key: Seq<usize>) -> int
    decreases terms.len(),
{
    if terms.len() == 0 {
        -1
    } else if terms.last().1 == key {
        terms.len() - 1
    } else {
        key_position(terms.drop_last(), key)
    }
}

/// The polynomial with monomial `m` added: a constant monomial goes into the
/// constant, any other one into the term with the same canonical variables,
/// or into a new term at the end.
pub open spec fn add_monomial(p: PolyModel, m: (int, Seq<usize>)) -> PolyModel {
    let key = canonical(m.1);
    if key.len() == 0 {
        PolyModel { terms: p.terms, constant: p.constant + m.0 }
    } else {
        let pos = key_position(p.terms, key);
        if pos >= 0 {
            PolyModel { terms: p.terms.update(pos, (p.terms[pos].0 + m.0, key)), constant: p.constant }
        } else {
            PolyModel { terms: p.terms.push((m.0, key)), constant: p.constant }
        }
    }
}

/// The polynomial holding the monomials `ms`, consolidated.
pub open spec fn consolidated(ms: Seq<(int, Seq<usize>)>) -> PolyModel
    decreases ms.len(),
{
    if ms.len() == 0 {
        PolyModel { terms: Seq::empty(), constant: 0 }
    } else {
        add_monomial(consolidated(ms.drop_last()), ms.last())
    }
}

/// Every coefficient of `p`, the constant included, has magnitude at most `b`.
pub open spec fn within(p: PolyModel, b: int) -> bool {
    &&& -b <= p.constant <= b
    &&& forall|q: int| 0 <= q < p.terms.len() ==> -b <= #[trigger] p.terms[q].0 <= b
}

/// No two terms of `terms` have the same variables.
pub open spec fn keys_distinct(terms: Seq<(int, Seq<usize>)>) -> bool {
    forall|a: int, b: int|
        0 <= a < terms.len() && 0 <= b < terms.len() && a != b ==> terms[a].1 != terms[b].1
}

/// Sum of the coefficients of the monomials of `ms` whose canonical
/// variables are `key`.
pub open spec fn coefficient_sum(ms: Seq<(int, Seq<usize>)>, key: Seq<usize>) -> int
    decreases ms.len(),
{
    if ms.len() == 0 {
        0
    } else {
        coefficient_sum(ms.drop_last(), key) + if canonical(ms.last().1) == key {
            ms.last().0
        } else {
            0
        }
    }
}

/// Number the hash index files a non-constant canonical variable list under.
pub open spec fn key_code(key: Seq<usize>) -> int {
    if key.len() == 1 {
        key[0] as int
    } else {
        (key[0] + 1) * 0x1_0000_0000 + key[1]
    }
}

/// A variable list a stored term may have: one or two variables, sorted,
/// each below [`variable_limit`].
pub open spec fn key_ok(key: Seq<usize>) -> bool {
    &&& 1 <= key.len() <= 2
    &&& forall|v: int| 0 <= v < key.len() ==> key[v] < variable_limit()
    &&& key.len() == 2 ==> key[0] <= key[1]
}

proof fn lemma_key_code_injective(a: Seq<usize>, b: Seq<usize>)
    requires
        key_ok(a),
        key_ok(b),
        key_code(a) == key_code(b),
    ensures
        a == b,
{
    let m = 0x1_0000_0000int;
    if a.len() == 2 {
        assert(key_code(a) >= m) by (nonlinear_arith)
            requires key_code(a) == (a[0] + 1) * m + a[1], a[0] >= 0, a[1] >= 0, m > 0;
    }
    if b.len() == 2 {
        assert(key_code(b) >= m) by (nonlinear_arith)
            requires key_code(b) == (b[0] + 1) * m + b[1], b[0] >= 0, b[1] >= 0, m > 0;
    }
    if a.len() == 2 && b.len() == 2 {
        let (x0, x1, y0, y1) = (a[0] as int, a[1] as int, b[0] as int, b[1] as int);
        assert(x0 == y0 && x1 == y1) by (nonlinear_arith)
            requires (x0 + 1) * m + x1 == (y0 + 1) * m + y1, 0 <= x1 < m, 0 <= y1 < m,
                x0 >= 0, y0 >= 0;
        assert(a =~= b);
    } else if a.len() == 1 && b.len() == 1 {
        assert(a =~= b);
    }
}

proof fn lemma_key_position(terms: Seq<(int, Seq<usize>)>, key: Seq<usize>)
    requires
        keys_distinct(terms),
    ensures
        -1 <= key_position(terms, key) < terms.len(),
        key_position(terms, key) >= 0 ==> terms[key_position(terms, key)].1 == key,
        key_position(terms, key) < 0 ==> forall|q: int|
            0 <= q < terms.len() ==> #[trigger] terms[q].1 != key,
    decreases terms.len(),
{
    if terms.len() > 0 && terms.last().1 != key {
        let init = terms.drop_last();
        assert(keys_distinct(init));
        lemma_key_position(init, key);
        assert forall|q: int| 0 <= q < init.len() implies init[q] == #[trigger] terms[q] by {}
    }
}

/// Consolidation keeps the stored keys canonical and distinct.
proof fn lemma_consolidated_keys(ms: Seq<(int, Seq<usize>)>)
    requires
        forall|q: int| 0 <= q < ms.len() ==> monomial_ok(#[trigger] ms[q]),
    ensures
        keys_distinct(consolidated(ms).terms),
        forall|q: int|
            0 <= q < consolidated(ms).terms.len() ==> key_ok(#[trigger] consolidated(ms).terms[q].1),
    decreases ms.len(),
{
    if ms.len() > 0 {
        let init = ms.drop_last();
        assert forall|q: int| 0 <= q < init.len() implies monomial_ok(#[trigger] init[q]) by {
            assert(init[q] == ms[q]);
        }
        lemma_consolidated_keys(init);
        let p = consolidated(init);
        let m = ms.last();
        assert(monomial_ok(ms[ms.len() - 1]));
        let key = canonical(m.1);
        lemma_key_position(p.terms, key);
        let r = consolidated(ms);
        if key.len() > 0 {
            assert(key_ok(key));
            assert forall|q: int| 0 <= q < r.terms.len() implies key_ok(#[trigger] r.terms[q].1) by {
                if q < p.terms.len() {
                    assert(key_ok(p.terms[q].1));
                }
            }
        }
    }
}

/// Adding monomials of bounded coefficient keeps the coefficients bounded.
proof fn lemma_consolidated_within(ms: Seq<(int, Seq<usize>)>)
    requires
        forall|q: int| 0 <= q < ms.len() ==> monomial_ok(#[trigger] ms[q]),
    ensures
        within(consolidated(ms), ms.len() * monomial_limit()),
    decreases ms.len(),
{
    if ms.len() > 0 {
        let init = ms.drop_last();
        assert forall|q: int| 0 <= q < init.len() implies monomial_ok(#[trigger] init[q]) by {
            assert(init[q] == ms[q]);
        }
        lemma_consolidated_within(init);
        lemma_consolidated_keys(init);
        let p = consolidated(init);
        let b = init.len() * monomial_limit();
        assert(ms.len() * monomial_limit() == b + monomial_limit()) by (nonlinear_arith)
            requires b == init.len() * monomial_limit(), init.len() + 1 == ms.len();
        assert(monomial_ok(ms[ms.len() - 1]));
        lemma_key_position(p.terms, canonical(ms.last().1));
        let r = consolidated(ms);
        assert forall|q: int| 0 <= q < r.terms.len() implies -(b + monomial_limit()) <= #[trigger] r.terms[q].0 <= b + monomial_limit() by {
            if q < p.terms.len() {
                assert(-b <= p.terms[q].0 <= b);
            }
        }
    }
}

/// A polynomial being built from monomials.
pub struct Polynomial {
    terms: Vec<Term>,
    constant: i128,
    positions: HashMapWithView<u64, usize>,
}

impl View for Polynomial {
    type V = PolyModel;

    closed spec fn view(&self) -> PolyModel {
        PolyModel { terms: terms_view(self.terms@), constant: self.constant as int }
    }
}

impl Polynomial {
    /// The index maps each stored key's code to its position, and nothing else.
    pub closed spec fn wf(&self) -> bool {
        &&& forall|q: int| 0 <= q < self.terms@.len() ==> key_ok(#[trigger] self.terms@[q].variables@)
        &&& forall|q: int|
            0 <= q < self.terms@.len() ==> {
                &&& self.positions@.contains_key(key_code(#[trigger] self.terms@[q].variables@) as u64)
                &&& self.positions@[key_code(self.terms@[q].variables@) as u64] == q
            }
        &&& forall|c: u64|
            #[trigger] self.positions@.contains_key(c) ==> {
                &&& self.positions@[c] < self.terms@.len()
                &&& key_code(self.terms@[self.positions@[c] as int].variables@) == c
            }
    }

    proof fn lemma_wf_distinct(&self)
        requires
            self.wf(),
        ensures
            keys_distinct(self@.terms),
    {
        assert forall|a: int, b: int|
            0 <= a < self@.terms.len() && 0 <= b < self@.terms.len() && a != b implies self@.terms[a].1
            != self@.terms[b].1 by {
            let ka = self.terms@[a].variables@;
            let kb = self.terms@[b].variables@;
            assert(key_ok(ka) && key_ok(kb));
            if ka == kb {
                assert(self.positions@[key_code(ka) as u64] == a);
                assert(self.positions@[key_code(kb) as u64] == b);
            }
        }
    }

    /// The empty polynomial.
    pub fn new() -> (p: Polynomial)
        ensures
            p.wf(),
            p@ == (PolyModel { terms: Seq::empty(), constant: 0 }),
    {
        let p = Polynomial { terms: Vec::new(), constant: 0, positions: HashMapWithView::new() };
        assert(p@.terms =~= Seq::empty());
        p
    }

    /// Adds one monomial, merging it into the term with the same variables.
    pub fn add_term(&mut self, coefficient: i128, variables: Vec<usize>)
        requires
            old(self).wf(),
            within(old(self)@, coefficient_limit()),
            monomial_ok((coefficient as int, variables@)),
        ensures
            final(self).wf(),
            final(self)@ == add_monomial(old(self)@, (coefficient as int, variables@)),
    {
        let ghost m = (coefficient as int, variables@);
        let key = if variables.len() == 2 && variables[0] > variables[1] {
            let mut k: Vec<usize> = Vec::new();
            k.push(variables[1]);
            k.push(variables[0]);
            k
        } else {
            variables
        };
        assert(key@ =~= canonical(m.1));
        proof {
            self.lemma_wf_distinct();
            lemma_key_position(self@.terms, key@);
        }
        if key.len() == 0 {
            self.constant = self.constant + coefficient;
            assert(self@.terms =~= add_monomial(old(self)@, m).terms);
            return;
        }
        assert(key_ok(key@));
        let code: u64 = if key.len() == 1 {
            key[0] as u64
        } else {
            (key[0] as u64 + 1) * 0x1_0000_0000 + key[1] as u64
        };
        assert(code == key_code(key@));
        match self.positions.get(&code) {
            Some(pos) => {
                let pos = *pos;
                assert(key_code(self.terms@[pos as int].variables@) == code);
                proof {
                    lemma_key_code_injective(self.terms@[pos as int].variables@, key@);
                }
                assert(self@.terms[pos as int].1 == key@);
                assert(key_position(self@.terms, key@) == pos);
                let c = self.terms[pos].coefficient + coefficient;
                self.terms.set(pos, Term { coefficient: c, variables: key });
                assert(self@.terms =~= add_monomial(old(self)@, m).terms);
                assert forall|q: int| 0 <= q < self.terms@.len() implies {
                    &&& key_ok(#[trigger] self.terms@[q].variables@)
                    &&& self.positions@.contains_key(key_code(self.terms@[q].variables@) as u64)
                    &&& self.positions@[key_code(self.terms@[q].variables@) as u64] == q
                } by {
                    if q != pos {
                        assert(old(self).terms@[q] == self.terms@[q]);
                    }
                }
                assert forall|c2: u64| #[trigger] self.positions@.contains_key(c2) implies {
                    &&& self.positions@[c2] < self.terms@.len()
                    &&& key_code(self.terms@[self.positions@[c2] as int].variables@) == c2
                } by {
                    assert(old(self).positions@.contains_key(c2));
                }
            },
            None => {
                assert forall|q: int| 0 <= q < self@.terms.len() implies self@.terms[q].1 != key@ by {
                    assert(self.positions@.contains_key(key_code(self.terms@[q].variables@) as u64));
                }
                assert(key_position(self@.terms, key@) < 0);
                let len = self.terms.len();
                self.positions.insert(code, len);
                self.terms.push(Term { coefficient, variables: key });
                assert(self@.terms =~= add_monomial(old(self)@, m).terms);
                assert forall|q: int| 0 <= q < self.terms@.len() implies {
                    &&& self.positions@.contains_key(key_code(#[trigger] self.terms@[q].variables@) as u64)
                    &&& self.positions@[key_code(self.terms@[q].variables@) as u64] == q
                } by {
                    if q < len {
                        assert(old(self).terms@[q] == self.terms@[q]);
                        assert(key_ok(old(self).terms@[q].variables@));
                        if key_code(old(self).terms@[q].variables@) == code {
                            lemma_key_code_injective(old(self).terms@[q].variables@, key@);
                        }
                    }
                }
                assert forall|c2: u64| #[trigger] self.positions@.contains_key(c2) implies {
                    &&& self.positions@[c2] < self.terms@.len()
                    &&& key_code(self.terms@[self.positions@[c2] as int].variables@) == c2
                } by {
                    if c2 != code {
                        assert(old(self).positions@.contains_key(c2));
                        assert(old(self).terms@[old(self).positions@[c2] as int] == self.terms@[self.positions@[c2] as int]);
                    }
                }
            },
        }
    }

    /// The non-constant terms, in order of first appearance.
    pub fn terms(&self) -> (r: &Vec<Term>)
        ensures
            terms_view(r@) == self@.terms,
    {
        &self.terms
    }

    /// The terms as they are written out: the non-constant terms in order of
    /// first appearance, then the constant as a term without variables, only
    /// when it is non-zero.
    pub fn emitted_terms(&self) -> (r: Vec<Term>)
        ensures
            terms_view(r@) == self@.terms + if self@.constant != 0 {
                seq![(self@.constant, Seq::<usize>::empty())]
            } else {
                Seq::empty()
            },
    {
        let mut out: Vec<Term> = Vec::new();
        for q in 0..self.terms.len()
            invariant
                terms_view(out@) == terms_view(self.terms@).take(q as int),
        {
            let t = &self.terms[q];
            let vars = t.variables.clone();
            assert(vars@ =~= t.variables@);
            let ghost prev = out@;
            out.push(Term { coefficient: t.coefficient, variables: vars });
            assert(out@ == prev.push(Term { coefficient: t.coefficient, variables: vars }));
            assert(terms_view(out@) =~= terms_view(prev).push(self.terms@[q as int]@));
            assert(terms_view(self.terms@).take(q + 1) =~= terms_view(self.terms@).take(q as int).push(
                self.terms@[q as int]@,
            ));
        }
        assert(terms_view(self.terms@).take(self.terms@.len() as int) =~= self@.terms);
        if self.constant != 0 {
            out.push(Term { coefficient: self.constant, variables: Vec::new() });
        }
        assert(terms_view(out@) =~= self@.terms + if self@.constant != 0 {
            seq![(self@.constant, Seq::<usize>::empty())]
        } else {
            Seq::empty()
        });
        out
    }

    /// The constant term.
    pub fn constant(&self) -> (r: i128)
        ensures
            r == self@.constant,
    {
        self.constant
    }
}

/// Consolidates a list of monomials into a polynomial: one term per
/// distinct (sorted) variable list, whose coefficient is the sum of theirs,
/// and one constant.
pub fn consolidate(monomials: &Vec<Term>) -> (p: Polynomial)
    requires
        monomials@.len() <= 0x100_0000_0000,
        forall|q: int| 0 <= q < monomials@.len() ==> monomial_ok(#[trigger] monomials@[q]@),
    ensures
        p.wf(),
        p@ == consolidated(terms_view(monomials@)),
{
    let ghost ms = terms_view(monomials@);
    let mut p = Polynomial::new();
    assert(ms.take(0) =~= Seq::empty());
    for i in 0..monomials.len()
        invariant
            ms == terms_view(monomials@),
            monomials@.len() <= 0x100_0000_0000,
            forall|q: int| 0 <= q < monomials@.len() ==> monomial_ok(#[trigger] monomials@[q]@),
            p.wf(),
            p@ == consolidated(ms.take(i as int)),
    {
        let ghost done = ms.take(i as int);
        proof {
            assert forall|q: int| 0 <= q < done.len() implies monomial_ok(#[trigger] done[q]) by {
                assert(done[q] == monomials@[q]@);
            }
            lemma_consolidated_within(done);
            assert(i * monomial_limit() <= coefficient_limit()) by (nonlinear_arith)
                requires i <= 0x100_0000_0000;
            assert(monomial_ok(monomials@[i as int]@));
        }
        let t = &monomials[i];
        p.add_term(t.coefficient, t.variables.clone());
        assert(ms.take(i + 1).drop_last() =~= done);
    }
    assert(ms.take(monomials.len() as int) =~= ms);
    p
}

/// Consolidation is exact: no two stored terms share their variables,
/// every monomial with variables has its (sorted) variables stored as a
/// term, each term's coefficient is the sum of the coefficients of all the
/// monomials with those variables, and the constant is the sum of the
/// coefficients of the constant monomials.
pub proof fn lemma_consolidation_sums(ms: Seq<(int, Seq<usize>)>)
    requires
        forall|q: int| 0 <= q < ms.len() ==> monomial_ok(#[trigger] ms[q]),
    ensures
        keys_distinct(consolidated(ms).terms),
        consolidated(ms).constant == coefficient_sum(ms, Seq::empty()),
        forall|q: int|
            0 <= q < ms.len() && canonical(ms[q].1).len() > 0 ==> key_position(
                consolidated(ms).terms,
                #[trigger] canonical(ms[q].1),
            ) >= 0,
        forall|key: Seq<usize>|
            key.len() > 0 ==> #[trigger] coefficient_sum(ms, key) == if key_position(
                consolidated(ms).terms,
                key,
            ) >= 0 {
                consolidated(ms).terms[key_position(consolidated(ms).terms, key)].0
            } else {
                0
            },
    decreases ms.len(),
{
    lemma_consolidated_keys(ms);
    if ms.len() > 0 {
        let init = ms.drop_last();
        assert forall|q: int| 0 <= q < init.len() implies monomial_ok(#[trigger] init[q]) by {
            assert(init[q] == ms[q]);
        }
        lemma_consolidation_sums(init);
        lemma_consolidated_keys(init);
        let p = consolidated(init);
        let r = consolidated(ms);
        let m = ms.last();
        let mk = canonical(m.1);
        assert(monomial_ok(ms[ms.len() - 1]));
        lemma_key_position(p.terms, mk);
        lemma_key_position(r.terms, mk);
        assert(canonical(Seq::<usize>::empty()) == Seq::<usize>::empty());
        if m.1.len() > 0 {
            assert(mk.len() > 0);
        } else {
            assert(mk =~= Seq::<usize>::empty());
        }
        assert forall|key: Seq<usize>| key.len() > 0 implies #[trigger] coefficient_sum(ms, key)
            == if key_position(r.terms, key) >= 0 {
            r.terms[key_position(r.terms, key)].0
        } else {
            0
        } by {
            lemma_key_position(p.terms, key);
            lemma_key_position(r.terms, key);
            assert(coefficient_sum(ms, key) == coefficient_sum(init, key) + if mk == key {
                m.0
            } else {
                0
            });
            assert(coefficient_sum(init, key) == if key_position(p.terms, key) >= 0 {
                p.terms[key_position(p.terms, key)].0
            } else {
                0
            });
            if key != mk {
                if key_position(p.terms, key) >= 0 {
                    assert(r.terms[key_position(p.terms, key)].1 == key);
                } else if key_position(r.terms, key) >= 0 {
                    assert(key_position(r.terms, key) < p.terms.len());
                    assert(r.terms[key_position(r.terms, key)] == p.terms[key_position(r.terms, key)]);
                }
            } else {
                if key_position(p.terms, key) < 0 {
                    assert(r.terms[p.terms.len() as int].1 == key);
                } else {
                    assert(r.terms[key_position(p.terms, key)].1 == key);
                }
            }
        }
        assert forall|q: int|
            0 <= q < ms.len() && canonical(ms[q].1).len() > 0 implies key_position(
            r.terms,
            #[trigger] canonical(ms[q].1),
        ) >= 0 by {
            let k = canonical(ms[q].1);
            lemma_key_position(r.terms, k);
            if q < init.len() {
                assert(init[q] == ms[q]);
                lemma_key_position(p.terms, k);
                let pp = key_position(p.terms, k);
                assert(pp >= 0);
                assert(r.terms[pp].1 == k);
            } else {
                if key_position(p.terms, mk) < 0 {
                    assert(r.terms[p.terms.len() as int].1 == mk);
                } else {
                    assert(r.terms[key_position(p.terms, mk)].1 == mk);
                }
            }
        }
    }
}

} // verus!
