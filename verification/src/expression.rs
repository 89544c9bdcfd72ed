use vstd::prelude::*;

verus! {

/// Three-way comparison of two expression keys.
#[derive(Debug, Clone, Copy, PartialEq, Eq, Structural)]
pub enum KeyCmp {
    Lt,
    Eq,
    Gt,
}

/// A variable key that can index a term of a [`LinearExpr`].
///
/// A key is a cheap stable handle; its identity for the expression algebra
/// is the abstract position `key_id` in a total order. Implementations
/// provide an executable three-way comparison that agrees with it.
pub trait ExprVariable: Sized + Copy {
    /// The key's position in the total order over keys of this type.
    spec fn key_id(&self) -> int;

    /// Three-way comparison, consistent with `key_id`.
    fn key_cmp(&self, other: &Self) -> (c: KeyCmp)
        ensures
            (c is Lt) == (self.key_id() < other.key_id()),
            (c is Eq) == (self.key_id() == other.key_id()),
            (c is Gt) == (self.key_id() > other.key_id()),
    ;
}

/// A scalar coefficient for a [`LinearExpr`].
///
/// The algebra never inspects a coefficient's value directly; it only asks
/// whether a coefficient is negligible (of magnitude below the working
/// tolerance) and combines coefficients through these operations. The
/// abstract results `add_spec`, `mul_spec` and `neg_spec` name, for each
/// implementation, what its executable operations return, so that every
/// contract of the algebra is exact relative to the scalar type chosen.
pub trait Coeff: Sized + Copy {
    /// Whether this coefficient counts as zero under the working tolerance.
    spec fn negligible(&self) -> bool;

    /// What `plus` returns.
    spec fn add_spec(self, other: Self) -> Self;

    /// What `times` returns.
    spec fn mul_spec(self, other: Self) -> Self;

    /// What `negated` returns.
    spec fn neg_spec(self) -> Self;

    /// What `divided_by` returns.
    spec fn div_spec(self, other: Self) -> Self;

    /// What `less_than` returns: the strict order on scalar values.
    spec fn lt_spec(self, other: Self) -> bool;

    /// What `zero` returns.
    spec fn zero_spec() -> Self;

    /// What `one` returns.
    spec fn one_spec() -> Self;

    fn is_negligible(&self) -> (b: bool)
        ensures
            b == self.negligible(),
    ;

    fn plus(self, other: Self) -> (r: Self)
        ensures
            r == self.add_spec(other),
    ;

    fn times(self, other: Self) -> (r: Self)
        ensures
            r == self.mul_spec(other),
    ;

    fn negated(self) -> (r: Self)
        ensures
            r == self.neg_spec(),
    ;

    fn divided_by(self, other: Self) -> (r: Self)
        requires
            !other.negligible(),
        ensures
            r == self.div_spec(other),
    ;

    fn less_than(self, other: Self) -> (r: bool)
        ensures
            r == self.lt_spec(other),
    ;

    fn zero() -> (r: Self)
        ensures
            r == Self::zero_spec(),
            r.negligible(),
    ;

    fn one() -> (r: Self)
        ensures
            r == Self::one_spec(),
    ;

    /// Negating a coefficient never moves it across the tolerance: the
    /// magnitude is unchanged.
    proof fn neg_significance(x: Self)
        ensures
            x.neg_spec().negligible() == x.negligible(),
    ;

    /// The unit coefficient is never negligible.
    proof fn one_significance()
        ensures
            !Self::one_spec().negligible(),
    ;

    /// The zero coefficient is negligible.
    proof fn zero_significance()
        ensures
            Self::zero_spec().negligible(),
    ;

    /// The comparison is a strict weak order: irreflexive, transitive,
    /// and with transitive incomparability.
    proof fn lt_order(x: Self, y: Self, z: Self)
        ensures
            !x.lt_spec(x),
            x.lt_spec(y) && y.lt_spec(z) ==> x.lt_spec(z),
            !x.lt_spec(y) && !y.lt_spec(z) ==> !x.lt_spec(z),
    ;
}

/// The coefficient stored for key `id` in a term sequence, if any.
pub open spec fn coeff_of<K: ExprVariable, C: Coeff>(s: Seq<(K, C)>, id: int) -> Option<C>
    decreases s.len(),
{
    if s.len() == 0 {
        None
    } else if s[0].0.key_id() == id {
        Some(s[0].1)
    } else {
        coeff_of(s.drop_first(), id)
    }
}

/// Keys appear in strictly increasing order.
pub open spec fn strictly_sorted<K: ExprVariable, C: Coeff>(s: Seq<(K, C)>) -> bool {
    forall|i: int, j: int|
        0 <= i < j < s.len() ==> (#[trigger] s[i].0).key_id() < (#[trigger] s[j].0).key_id()
}

/// No stored coefficient is negligible.
pub open spec fn all_significant<K: ExprVariable, C: Coeff>(s: Seq<(K, C)>) -> bool {
    forall|i: int| 0 <= i < s.len() ==> !(#[trigger] s[i].1).negligible()
}

/// The coefficient that key `id` carries after a single `add_term` of `c`
/// onto a term sequence where it carried `prev`.
pub open spec fn added_coeff<C: Coeff>(prev: Option<C>, c: C) -> Option<C> {
    if c.negligible() {
        prev
    } else {
        match prev {
            None => Some(c),
            Some(a) => {
                let m = a.add_spec(c);
                if m.negligible() {
                    None
                } else {
                    Some(m)
                }
            },
        }
    }
}

/// The coefficient that key `id` carries after merging a scaled expression:
/// `a` is what the receiver carried, `b` what the merged expression carries.
pub open spec fn merged_coeff<C: Coeff>(a: Option<C>, b: Option<C>, scale: C) -> Option<C> {
    match (a, b) {
        (a_opt, None) => a_opt,
        (None, Some(bc)) => {
            let m = bc.mul_spec(scale);
            if m.negligible() {
                None
            } else {
                Some(m)
            }
        },
        (Some(ac), Some(bc)) => {
            let m = ac.add_spec(bc.mul_spec(scale));
            if m.negligible() {
                None
            } else {
                Some(m)
            }
        },
    }
}

/// The coefficient that key `id` carries after scaling by `scalar`
/// (for a scalar that is not itself negligible).
pub open spec fn scaled_coeff<C: Coeff>(prev: Option<C>, scalar: C) -> Option<C> {
    match prev {
        None => None,
        Some(a) => {
            let m = a.mul_spec(scalar);
            if m.negligible() {
                None
            } else {
                Some(m)
            }
        },
    }
}

/// The coefficient that key `id` sums to over all of `pairs`, duplicates
/// merged in input order and nothing dropped yet.
pub open spec fn summed_coeff<K: ExprVariable, C: Coeff>(pairs: Seq<(K, C)>, id: int) -> Option<C>
    decreases pairs.len(),
{
    if pairs.len() == 0 {
        None
    } else {
        let prev = summed_coeff(pairs.drop_last(), id);
        if pairs.last().0.key_id() == id {
            match prev {
                None => Some(pairs.last().1),
                Some(a) => Some(a.add_spec(pairs.last().1)),
            }
        } else {
            prev
        }
    }
}

/// The effect of substituting `repl` for `var` in `pre`, yielding
/// `post`: nothing changes when `var` is absent; else `var`'s term is
/// removed and `repl`, scaled by its coefficient, is merged in.
pub open spec fn substitution_rewrite<K: ExprVariable, C: Coeff>(
    pre: LinearExpr<K, C>,
    var: K,
    repl: LinearExpr<K, C>,
    post: LinearExpr<K, C>,
) -> bool {
    &&& post.wf()
    &&& match coeff_of(pre@, var.key_id()) {
        None => post@ == pre@ && post.spec_constant() == pre.spec_constant(),
        Some(c) => post.spec_constant() == pre.spec_constant().add_spec(
            repl.spec_constant().mul_spec(c),
        ) && forall|id: int|
            coeff_of(post@, id) == merged_coeff(
                if id == var.key_id() {
                    None
                } else {
                    coeff_of(pre@, id)
                },
                coeff_of(repl@, id),
                c,
            ),
    }
}

/// Drops a summed coefficient whose total ends up negligible.
pub open spec fn dropped_coeff<C: Coeff>(c: Option<C>) -> Option<C> {
    match c {
        None => None,
        Some(a) => if a.negligible() {
            None
        } else {
            Some(a)
        },
    }
}

/// A sparse linear combination `Σ cᵢ·vᵢ + constant` stored as a vector of
/// terms sorted by key, never holding a negligible coefficient.
///
/// Every operation preserves the invariant [`LinearExpr::wf`]: keys are
/// strictly increasing and every stored coefficient is significant. An
/// addition that drives a term's coefficient below the tolerance removes
/// the term; scaling by a negligible scalar collapses the expression.
#[derive(Debug, Clone)]
pub struct LinearExpr<K: ExprVariable, C: Coeff> {
    terms: Vec<(K, C)>,
    constant: C,
}

impl<K: ExprVariable, C: Coeff> View for LinearExpr<K, C> {
    type V = Seq<(K, C)>;

    closed spec fn view(&self) -> Seq<(K, C)> {
        self.terms@
    }
}

impl<K: ExprVariable, C: Coeff> LinearExpr<K, C> {
    /// The constant term.
    pub closed spec fn spec_constant(self) -> C {
        self.constant
    }

    /// The invariant every operation preserves: keys strictly increasing,
    /// no stored coefficient negligible.
    pub open spec fn wf(self) -> bool {
        strictly_sorted(self@) && all_significant(self@)
    }

    /// The empty expression.
    pub fn new() -> (r: Self)
        ensures
            r.wf(),
            r@.len() == 0,
            r.spec_constant() == C::zero_spec(),
    {
        LinearExpr { terms: Vec::new(), constant: C::zero() }
    }

    /// A constant expression without terms.
    pub fn with_constant(constant: C) -> (r: Self)
        ensures
            r.wf(),
            r@.len() == 0,
            r.spec_constant() == constant,
    {
        LinearExpr { terms: Vec::new(), constant }
    }

    /// A single-term expression; a negligible coefficient yields the empty
    /// expression.
    pub fn with_term(var: K, coefficient: C) -> (r: Self)
        ensures
            r.wf(),
            r.spec_constant() == C::zero_spec(),
            coeff_of(r@, var.key_id()) == added_coeff(None::<C>, coefficient),
            forall|id: int| id != var.key_id() ==> coeff_of(r@, id) is None,
    {
        let mut r = Self::new();
        r.add_term(var, coefficient);
        r
    }

    /// An exact copy (keys and coefficients are plain copyable values).
    pub fn duplicate(&self) -> (r: Self)
        ensures
            r@ == self@,
            r.spec_constant() == self.spec_constant(),
    {
        let mut terms: Vec<(K, C)> = Vec::new();
        let n = self.terms.len();
        let mut i: usize = 0;
        while i < n
            invariant
                n == self@.len(),
                i <= n,
                terms@ == self@.take(i as int),
            decreases n - i,
        {
            terms.push(self.terms[i]);
            proof {
                assert(self@.take(i + 1) =~= self@.take(i as int).push(self@[i as int]));
            }
            i = i + 1;
        }
        proof {
            assert(self@.take(n as int) =~= self@);
        }
        LinearExpr { terms, constant: self.constant }
    }

    /// The number of stored terms.
    pub fn num_terms(&self) -> (n: usize)
        ensures
            n == self@.len(),
    {
        self.terms.len()
    }

    /// The term at a position, in key order.
    pub fn term_at(&self, i: usize) -> (t: (K, C))
        requires
            i < self@.len(),
        ensures
            t == self@[i as int],
    {
        self.terms[i]
    }

    /// The constant term.
    pub fn get_constant(&self) -> (c: C)
        ensures
            c == self.spec_constant(),
    {
        self.constant
    }

    /// Replaces the constant term.
    pub fn set_constant(&mut self, constant: C)
        ensures
            final(self)@ == old(self)@,
            final(self).spec_constant() == constant,
    {
        self.constant = constant;
    }

    /// Adds to the constant term.
    pub fn add_constant(&mut self, constant: C)
        ensures
            final(self)@ == old(self)@,
            final(self).spec_constant() == old(self).spec_constant().add_spec(constant),
    {
        self.constant = self.constant.plus(constant);
    }

    /// Binary search among the sorted terms. Returns whether `var`'s key is
    /// present and, if so, its position; if not, the position where a term
    /// with that key would be inserted.
    fn find_index(&self, var: &K) -> (r: (bool, usize))
        requires
            strictly_sorted(self@),
        ensures
            r.1 <= self@.len(),
            r.0 ==> r.1 < self@.len() && self@[r.1 as int].0.key_id() == var.key_id(),
            !r.0 ==> forall|i: int|
                0 <= i < self@.len() ==> (#[trigger] self@[i].0).key_id() != var.key_id(),
            forall|i: int| 0 <= i < r.1 ==> (#[trigger] self@[i].0).key_id() < var.key_id(),
            !r.0 ==> forall|i: int|
                r.1 <= i < self@.len() ==> (#[trigger] self@[i].0).key_id() > var.key_id(),
    {
        let mut lo: usize = 0;
        let mut hi: usize = self.terms.len();
        while lo < hi
            invariant
                lo <= hi <= self@.len(),
                strictly_sorted(self@),
                forall|i: int| 0 <= i < lo ==> (#[trigger] self@[i].0).key_id() < var.key_id(),
                forall|i: int|
                    hi <= i < self@.len() ==> (#[trigger] self@[i].0).key_id() > var.key_id(),
            decreases hi - lo,
        {
            let mid = lo + (hi - lo) / 2;
            match self.terms[mid].0.key_cmp(var) {
                KeyCmp::Lt => {
                    lo = mid + 1;
                },
                KeyCmp::Gt => {
                    hi = mid;
                },
                KeyCmp::Eq => {
                    return (true, mid);
                },
            }
        }
        (false, lo)
    }

    /// The stored coefficient of `var`, or zero when absent.
    pub fn coefficient(&self, var: &K) -> (r: C)
        requires
            self.wf(),
        ensures
            r == match coeff_of(self@, var.key_id()) {
                Some(c) => c,
                None => C::zero_spec(),
            },
    {
        let (found, idx) = self.find_index(var);
        if found {
            proof {
                lemma_coeff_of_present(self@, idx as int);
            }
            self.terms[idx].1
        } else {
            proof {
                lemma_coeff_of_absent(self@, var.key_id());
            }
            C::zero()
        }
    }

    /// Adds `coefficient` onto `var`'s term: inserts the term at its sorted
    /// position when absent, sums coefficients when present, and removes
    /// the term when the sum turns negligible. A negligible `coefficient`
    /// leaves the expression unchanged.
    pub fn add_term(&mut self, var: K, coefficient: C)
        requires
            old(self).wf(),
        ensures
            final(self).wf(),
            final(self).spec_constant() == old(self).spec_constant(),
            coeff_of(final(self)@, var.key_id()) == added_coeff(
                coeff_of(old(self)@, var.key_id()),
                coefficient,
            ),
            forall|id: int|
                id != var.key_id() ==> coeff_of(final(self)@, id) == coeff_of(old(self)@, id),
    {
        if coefficient.is_negligible() {
            return ;
        }
        let (found, idx) = self.find_index(&var);
        if found {
            proof {
                lemma_coeff_of_present(self@, idx as int);
            }
            let existing = self.terms[idx];
            let merged = existing.1.plus(coefficient);
            if merged.is_negligible() {
                self.terms.remove(idx);
                proof {
                    lemma_remove_effect(old(self)@, idx as int);
                }
            } else {
                self.terms.remove(idx);
                self.terms.insert(idx, (existing.0, merged));
                proof {
                    lemma_update_effect(old(self)@, idx as int, (existing.0, merged));
                    assert(self@ =~= old(self)@.update(idx as int, (existing.0, merged)));
                }
            }
        } else {
            proof {
                lemma_coeff_of_absent(self@, var.key_id());
            }
            self.terms.insert(idx, (var, coefficient));
            proof {
                lemma_insert_effect(old(self)@, idx as int, (var, coefficient));
            }
        }
    }

    /// Removes `var`'s term, returning its coefficient if it was present.
    pub fn remove_term(&mut self, var: &K) -> (r: Option<C>)
        requires
            old(self).wf(),
        ensures
            final(self).wf(),
            final(self).spec_constant() == old(self).spec_constant(),
            r == coeff_of(old(self)@, var.key_id()),
            r is None ==> final(self)@ == old(self)@,
            coeff_of(final(self)@, var.key_id()) is None,
            forall|id: int|
                id != var.key_id() ==> coeff_of(final(self)@, id) == coeff_of(old(self)@, id),
    {
        let (found, idx) = self.find_index(var);
        if found {
            proof {
                lemma_coeff_of_present(self@, idx as int);
            }
            let removed = self.terms.remove(idx);
            proof {
                lemma_remove_effect(old(self)@, idx as int);
            }
            Some(removed.1)
        } else {
            proof {
                lemma_coeff_of_absent(self@, var.key_id());
            }
            None
        }
    }

    /// Merges `other`, scaled by `scale`, into this expression: a linear
    /// merge of the two sorted term sequences. A merged or scaled
    /// coefficient that turns negligible is dropped; the constant picks up
    /// `other`'s constant times `scale`.
    pub fn add_scaled_expr(&mut self, other: &Self, scale: C)
        requires
            old(self).wf(),
            other.wf(),
        ensures
            final(self).wf(),
            final(self).spec_constant() == old(self).spec_constant().add_spec(
                other.spec_constant().mul_spec(scale),
            ),
            forall|id: int|
                coeff_of(final(self)@, id) == merged_coeff(
                    coeff_of(old(self)@, id),
                    coeff_of(other@, id),
                    scale,
                ),
    {
        let ghost av = self@;
        let ghost bv = other@;
        let a_len = self.terms.len();
        let b_len = other.terms.len();
        let mut new_terms: Vec<(K, C)> = Vec::new();
        let mut i: usize = 0;
        let mut j: usize = 0;
        while i < a_len || j < b_len
            invariant
                self@ == av,
                other@ == bv,
                strictly_sorted(av),
                all_significant(av),
                strictly_sorted(bv),
                all_significant(bv),
                a_len == av.len(),
                b_len == bv.len(),
                i <= a_len,
                j <= b_len,
                strictly_sorted(new_terms@),
                all_significant(new_terms@),
                forall|p: int, q: int|
                    0 <= p < new_terms@.len() && i <= q < av.len() ==> (
                    #[trigger] new_terms@[p].0).key_id() < (#[trigger] av[q].0).key_id(),
                forall|p: int, q: int|
                    0 <= p < new_terms@.len() && j <= q < bv.len() ==> (
                    #[trigger] new_terms@[p].0).key_id() < (#[trigger] bv[q].0).key_id(),
                forall|p: int, q: int|
                    0 <= p < i && j <= q < bv.len() ==> (#[trigger] av[p].0).key_id() < (
                    #[trigger] bv[q].0).key_id(),
                forall|p: int, q: int|
                    0 <= p < j && i <= q < av.len() ==> (#[trigger] bv[p].0).key_id() < (
                    #[trigger] av[q].0).key_id(),
                forall|id: int|
                    coeff_of(new_terms@, id) == merged_coeff(
                        coeff_of(av.take(i as int), id),
                        coeff_of(bv.take(j as int), id),
                        scale,
                    ),
            decreases (a_len - i) + (b_len - j),
        {
            let from_a = if j >= b_len {
                true
            } else if i >= a_len {
                false
            } else {
                matches!(self.terms[i].0.key_cmp(&other.terms[j].0), KeyCmp::Lt)
            };
            let both = i < a_len && j < b_len && matches!(
                self.terms[i].0.key_cmp(&other.terms[j].0),
                KeyCmp::Eq,
            );
            proof {
                lemma_prefix_props(av, i as int);
                lemma_prefix_props(bv, j as int);
            }
            if both {
                let t_a = self.terms[i];
                let t_b = other.terms[j];
                let merged = t_a.1.plus(t_b.1.times(scale));
                let ghost prev = new_terms@;
                let key = t_a.0;
                if !merged.is_negligible() {
                    new_terms.push((key, merged));
                    proof {
                        lemma_push_effect(prev, (key, merged));
                    }
                } else {
                    proof {
                        assert forall|p: int|
                            0 <= p < prev.len() implies (#[trigger] prev[p].0).key_id()
                            != key.key_id() by {}
                        lemma_coeff_of_absent(prev, key.key_id());
                    }
                }
                proof {
                    assert(av.take(i + 1) =~= av.take(i as int).push(t_a));
                    assert(bv.take(j + 1) =~= bv.take(j as int).push(t_b));
                    lemma_push_effect(av.take(i as int), t_a);
                    lemma_push_effect(bv.take(j as int), t_b);
                    assert forall|id: int| true implies coeff_of(new_terms@, id) == merged_coeff(
                        coeff_of(av.take(i + 1), id),
                        coeff_of(bv.take(j + 1), id),
                        scale,
                    ) by {
                        if id != t_a.0.key_id() {
                            assert(coeff_of(new_terms@, id) == coeff_of(prev, id));
                        }
                    }
                }
                i = i + 1;
                j = j + 1;
            } else if from_a {
                let t_a = self.terms[i];
                let ghost prev = new_terms@;
                new_terms.push(t_a);
                proof {
                    lemma_push_effect(prev, t_a);
                    assert(av.take(i + 1) =~= av.take(i as int).push(t_a));
                    lemma_push_effect(av.take(i as int), t_a);
                    assert forall|q: int|
                        0 <= q < bv.take(j as int).len() implies (#[trigger] bv.take(
                        j as int,
                    )[q].0).key_id() != t_a.0.key_id() by {
                        assert(bv.take(j as int)[q] == bv[q]);
                    }
                    lemma_coeff_of_absent(bv.take(j as int), t_a.0.key_id());
                    assert forall|id: int| true implies coeff_of(new_terms@, id) == merged_coeff(
                        coeff_of(av.take(i + 1), id),
                        coeff_of(bv.take(j as int), id),
                        scale,
                    ) by {
                        if id != t_a.0.key_id() {
                            assert(coeff_of(new_terms@, id) == coeff_of(prev, id));
                        }
                    }
                }
                i = i + 1;
            } else {
                let t_b = other.terms[j];
                let scaled = t_b.1.times(scale);
                let ghost prev = new_terms@;
                if !scaled.is_negligible() {
                    new_terms.push((t_b.0, scaled));
                    proof {
                        lemma_push_effect(prev, (t_b.0, scaled));
                    }
                } else {
                    proof {
                        assert forall|p: int|
                            0 <= p < prev.len() implies (#[trigger] prev[p].0).key_id()
                            != t_b.0.key_id() by {}
                        lemma_coeff_of_absent(prev, t_b.0.key_id());
                    }
                }
                proof {
                    assert(bv.take(j + 1) =~= bv.take(j as int).push(t_b));
                    lemma_push_effect(bv.take(j as int), t_b);
                    assert forall|q: int|
                        0 <= q < av.take(i as int).len() implies (#[trigger] av.take(
                        i as int,
                    )[q].0).key_id() != t_b.0.key_id() by {
                        assert(av.take(i as int)[q] == av[q]);
                    }
                    lemma_coeff_of_absent(av.take(i as int), t_b.0.key_id());
                    assert forall|id: int| true implies coeff_of(new_terms@, id) == merged_coeff(
                        coeff_of(av.take(i as int), id),
                        coeff_of(bv.take(j + 1), id),
                        scale,
                    ) by {
                        if id != t_b.0.key_id() {
                            assert(coeff_of(new_terms@, id) == coeff_of(prev, id));
                        }
                    }
                }
                j = j + 1;
            }
        }
        proof {
            assert(av.take(a_len as int) =~= av);
            assert(bv.take(b_len as int) =~= bv);
        }
        self.terms = new_terms;
        self.constant = self.constant.plus(other.constant.times(scale));
    }

    /// Adds `other` unscaled: merging with a scale of one.
    pub fn add_expr(&mut self, other: &Self)
        requires
            old(self).wf(),
            other.wf(),
        ensures
            final(self).wf(),
            final(self).spec_constant() == old(self).spec_constant().add_spec(
                other.spec_constant().mul_spec(C::one_spec()),
            ),
            forall|id: int|
                coeff_of(final(self)@, id) == merged_coeff(
                    coeff_of(old(self)@, id),
                    coeff_of(other@, id),
                    C::one_spec(),
                ),
    {
        let one = C::one();
        self.add_scaled_expr(other, one);
    }

    /// Subtracts `other`: merging with a scale of minus one.
    pub fn sub_expr(&mut self, other: &Self)
        requires
            old(self).wf(),
            other.wf(),
        ensures
            final(self).wf(),
            final(self).spec_constant() == old(self).spec_constant().add_spec(
                other.spec_constant().mul_spec(C::one_spec().neg_spec()),
            ),
            forall|id: int|
                coeff_of(final(self)@, id) == merged_coeff(
                    coeff_of(old(self)@, id),
                    coeff_of(other@, id),
                    C::one_spec().neg_spec(),
                ),
    {
        let minus_one = C::one().negated();
        self.add_scaled_expr(other, minus_one);
    }

    /// Multiplies every coefficient and the constant by `scalar`. A
    /// negligible scalar collapses the expression to empty with a zero
    /// constant; otherwise any coefficient that falls below the tolerance
    /// is dropped.
    pub fn scale(&mut self, scalar: C)
        requires
            old(self).wf(),
        ensures
            final(self).wf(),
            scalar.negligible() ==> final(self)@.len() == 0 && final(self).spec_constant()
                == C::zero_spec(),
            !scalar.negligible() ==> final(self).spec_constant() == old(self).spec_constant()
                .mul_spec(scalar) && forall|id: int|
                coeff_of(final(self)@, id) == scaled_coeff(coeff_of(old(self)@, id), scalar),
    {
        if scalar.is_negligible() {
            self.terms = Vec::new();
            self.constant = C::zero();
            return ;
        }
        let ghost av = self@;
        let a_len = self.terms.len();
        let mut new_terms: Vec<(K, C)> = Vec::new();
        let mut i: usize = 0;
        while i < a_len
            invariant
                self@ == av,
                strictly_sorted(av),
                all_significant(av),
                a_len == av.len(),
                i <= a_len,
                strictly_sorted(new_terms@),
                all_significant(new_terms@),
                forall|p: int, q: int|
                    0 <= p < new_terms@.len() && i <= q < av.len() ==> (
                    #[trigger] new_terms@[p].0).key_id() < (#[trigger] av[q].0).key_id(),
                forall|id: int|
                    coeff_of(new_terms@, id) == scaled_coeff(
                        coeff_of(av.take(i as int), id),
                        scalar,
                    ),
            decreases a_len - i,
        {
            let t = self.terms[i];
            let scaled = t.1.times(scalar);
            let ghost prev = new_terms@;
            proof {
                lemma_prefix_props(av, i as int);
            }
            if !scaled.is_negligible() {
                new_terms.push((t.0, scaled));
                proof {
                    lemma_push_effect(prev, (t.0, scaled));
                }
            } else {
                proof {
                    assert forall|p: int|
                        0 <= p < prev.len() implies (#[trigger] prev[p].0).key_id()
                        != t.0.key_id() by {}
                    lemma_coeff_of_absent(prev, t.0.key_id());
                }
            }
            proof {
                assert(av.take(i + 1) =~= av.take(i as int).push(t));
                lemma_push_effect(av.take(i as int), t);
                assert forall|id: int| true implies coeff_of(new_terms@, id) == scaled_coeff(
                    coeff_of(av.take(i + 1), id),
                    scalar,
                ) by {
                    if id != t.0.key_id() {
                        assert(coeff_of(new_terms@, id) == coeff_of(prev, id));
                    }
                }
            }
            i = i + 1;
        }
        proof {
            assert(av.take(a_len as int) =~= av);
        }
        self.terms = new_terms;
        self.constant = self.constant.times(scalar);
    }

    /// Removes `var`'s term and, if it was present with coefficient `c`,
    /// merges `replacement` scaled by `c` in its place. The substitution
    /// primitive behind every pivot.
    pub fn replace_var_with_expr(&mut self, var: K, replacement: &Self) -> (r: Option<C>)
        requires
            old(self).wf(),
            replacement.wf(),
        ensures
            final(self).wf(),
            r == coeff_of(old(self)@, var.key_id()),
            r is None ==> final(self)@ == old(self)@ && final(self).spec_constant() == old(
                self,
            ).spec_constant(),
            r matches Some(c) ==> final(self).spec_constant() == old(self).spec_constant()
                .add_spec(replacement.spec_constant().mul_spec(c)) && forall|id: int|
                coeff_of(final(self)@, id) == merged_coeff(
                    if id == var.key_id() {
                        None
                    } else {
                        coeff_of(old(self)@, id)
                    },
                    coeff_of(replacement@, id),
                    c,
                ),
    {
        match self.remove_term(&var) {
            None => None,
            Some(c) => {
                self.add_scaled_expr(replacement, c);
                Some(c)
            },
        }
    }

    /// Builds an expression from arbitrary pairs: sorted by key, duplicate
    /// keys merged by summing (in input order), and any summed
    /// coefficient of negligible magnitude dropped at the end.
    pub fn with_terms(pairs: Vec<(K, C)>) -> (r: Self)
        ensures
            r.wf(),
            r.spec_constant() == C::zero_spec(),
            forall|id: int| coeff_of(r@, id) == dropped_coeff(summed_coeff(pairs@, id)),
    {
        let n = pairs.len();
        let mut raw: Vec<(K, C)> = Vec::new();
        let mut k: usize = 0;
        proof {
            assert(pairs@.take(0) =~= Seq::<(K, C)>::empty());
        }
        while k < n
            invariant
                n == pairs@.len(),
                k <= n,
                strictly_sorted(raw@),
                forall|id: int| coeff_of(raw@, id) == summed_coeff(pairs@.take(k as int), id),
            decreases n - k,
        {
            let t = pairs[k];
            let ghost before = raw@;
            let (found, idx) = search_terms(&raw, &t.0);
            if found {
                proof {
                    lemma_coeff_of_present(before, idx as int);
                }
                let existing = raw[idx];
                let merged = existing.1.plus(t.1);
                raw.remove(idx);
                raw.insert(idx, (existing.0, merged));
                proof {
                    lemma_raw_update_effect(before, idx as int, (existing.0, merged));
                    assert(raw@ =~= before.update(idx as int, (existing.0, merged)));
                }
            } else {
                proof {
                    lemma_coeff_of_absent(before, t.0.key_id());
                }
                raw.insert(idx, t);
                proof {
                    lemma_raw_insert_effect(before, idx as int, t);
                }
            }
            proof {
                assert(pairs@.take(k + 1).drop_last() =~= pairs@.take(k as int));
                assert(pairs@.take(k + 1).last() == pairs@[k as int]);
                assert forall|id: int| true implies coeff_of(raw@, id) == summed_coeff(
                    pairs@.take(k + 1),
                    id,
                ) by {
                    if id != t.0.key_id() {
                        assert(coeff_of(raw@, id) == coeff_of(before, id));
                    }
                }
            }
            k = k + 1;
        }
        proof {
            assert(pairs@.take(n as int) =~= pairs@);
        }
        let m = raw.len();
        let mut terms: Vec<(K, C)> = Vec::new();
        let mut i: usize = 0;
        while i < m
            invariant
                m == raw@.len(),
                i <= m,
                strictly_sorted(raw@),
                strictly_sorted(terms@),
                all_significant(terms@),
                forall|p: int, q: int|
                    0 <= p < terms@.len() && i <= q < raw@.len() ==> (
                    #[trigger] terms@[p].0).key_id() < (#[trigger] raw@[q].0).key_id(),
                forall|id: int|
                    coeff_of(terms@, id) == dropped_coeff(coeff_of(raw@.take(i as int), id)),
            decreases m - i,
        {
            let t = raw[i];
            let ghost prev = terms@;
            if !t.1.is_negligible() {
                terms.push(t);
                proof {
                    lemma_push_effect(prev, t);
                }
            } else {
                proof {
                    assert forall|p: int|
                        0 <= p < prev.len() implies (#[trigger] prev[p].0).key_id()
                        != t.0.key_id() by {}
                    lemma_coeff_of_absent(prev, t.0.key_id());
                }
            }
            proof {
                assert(raw@.take(i + 1) =~= raw@.take(i as int).insert(i as int, t));
                assert forall|a: int|
                    0 <= a < raw@.take(i as int).len() implies (#[trigger] raw@.take(
                    i as int,
                )[a].0).key_id() < t.0.key_id() by {
                    assert(raw@.take(i as int)[a] == raw@[a]);
                }
                lemma_raw_insert_effect(raw@.take(i as int), i as int, t);
                assert forall|id: int| true implies coeff_of(terms@, id) == dropped_coeff(
                    coeff_of(raw@.take(i + 1), id),
                ) by {
                    if id != t.0.key_id() {
                        assert(coeff_of(terms@, id) == coeff_of(prev, id));
                    }
                }
            }
            i = i + 1;
        }
        proof {
            assert(raw@.take(m as int) =~= raw@);
        }
        LinearExpr { terms, constant: C::zero() }
    }

    /// Like [`LinearExpr::with_terms`], then sets the constant.
    pub fn with_terms_and_constant(pairs: Vec<(K, C)>, constant: C) -> (r: Self)
        ensures
            r.wf(),
            r.spec_constant() == constant,
            forall|id: int| coeff_of(r@, id) == dropped_coeff(summed_coeff(pairs@, id)),
    {
        let mut r = Self::with_terms(pairs);
        r.set_constant(constant);
        r
    }
}

/// Binary search among sorted terms, as a free helper over a bare vector.
/// Returns whether `var`'s key is present and, if so, its position; if
/// not, the position where it would be inserted.
fn search_terms<K: ExprVariable, C: Coeff>(terms: &Vec<(K, C)>, var: &K) -> (r: (bool, usize))
    requires
        strictly_sorted(terms@),
    ensures
        r.1 <= terms@.len(),
        r.0 ==> r.1 < terms@.len() && terms@[r.1 as int].0.key_id() == var.key_id(),
        !r.0 ==> forall|i: int|
            0 <= i < terms@.len() ==> (#[trigger] terms@[i].0).key_id() != var.key_id(),
        forall|i: int| 0 <= i < r.1 ==> (#[trigger] terms@[i].0).key_id() < var.key_id(),
        !r.0 ==> forall|i: int|
            r.1 <= i < terms@.len() ==> (#[trigger] terms@[i].0).key_id() > var.key_id(),
{
    let mut lo: usize = 0;
    let mut hi: usize = terms.len();
    while lo < hi
        invariant
            lo <= hi <= terms@.len(),
            strictly_sorted(terms@),
            forall|i: int| 0 <= i < lo ==> (#[trigger] terms@[i].0).key_id() < var.key_id(),
            forall|i: int|
                hi <= i < terms@.len() ==> (#[trigger] terms@[i].0).key_id() > var.key_id(),
        decreases hi - lo,
    {
        let mid = lo + (hi - lo) / 2;
        match terms[mid].0.key_cmp(var) {
            KeyCmp::Lt => {
                lo = mid + 1;
            },
            KeyCmp::Gt => {
                hi = mid;
            },
            KeyCmp::Eq => {
                return (true, mid);
            },
        }
    }
    (false, lo)
}

/// Effect of inserting a term at its sorted position, with nothing
/// assumed or concluded about coefficient significance.
proof fn lemma_raw_insert_effect<K: ExprVariable, C: Coeff>(s: Seq<(K, C)>, i: int, t: (K, C))
    requires
        strictly_sorted(s),
        0 <= i <= s.len(),
        forall|a: int| 0 <= a < i ==> (#[trigger] s[a].0).key_id() < t.0.key_id(),
        forall|a: int| i <= a < s.len() ==> (#[trigger] s[a].0).key_id() > t.0.key_id(),
    ensures
        strictly_sorted(s.insert(i, t)),
        coeff_of(s.insert(i, t), t.0.key_id()) == Some(t.1),
        forall|id: int| id != t.0.key_id() ==> coeff_of(s.insert(i, t), id) == coeff_of(s, id),
{
    let u = s.insert(i, t);
    let key = t.0.key_id();
    let pre = s.take(i);
    let post = s.skip(i);
    assert(u =~= pre + (seq![t] + post));
    assert(s =~= pre + post);
    assert forall|a: int, b: int| 0 <= a < b < u.len() implies (u[a].0).key_id()
        < (u[b].0).key_id() by {
        assert(u[a] == if a < i { s[a] } else if a == i { t } else { s[a - 1] });
        assert(u[b] == if b < i { s[b] } else if b == i { t } else { s[b - 1] });
    }
    assert forall|a: int| 0 <= a < pre.len() implies (#[trigger] pre[a].0).key_id() != key by {
        assert(pre[a] == s[a]);
    }
    lemma_coeff_of_absent(pre, key);
    assert forall|id: int| true implies coeff_of(u, id) == if coeff_of(pre, id) is Some {
        coeff_of(pre, id)
    } else if key == id {
        Some(t.1)
    } else {
        coeff_of(post, id)
    } by {
        lemma_coeff_of_split(pre, t, post, id);
    }
    assert forall|id: int| true implies coeff_of(s, id) == if coeff_of(pre, id) is Some {
        coeff_of(pre, id)
    } else {
        coeff_of(post, id)
    } by {
        lemma_coeff_of_concat(pre, post, id);
    }
}

/// Effect of replacing the term at `i` by one with the same key, with
/// nothing assumed or concluded about coefficient significance.
proof fn lemma_raw_update_effect<K: ExprVariable, C: Coeff>(s: Seq<(K, C)>, i: int, t: (K, C))
    requires
        strictly_sorted(s),
        0 <= i < s.len(),
        t.0.key_id() == s[i].0.key_id(),
    ensures
        strictly_sorted(s.update(i, t)),
        coeff_of(s.update(i, t), t.0.key_id()) == Some(t.1),
        forall|id: int| id != t.0.key_id() ==> coeff_of(s.update(i, t), id) == coeff_of(s, id),
{
    let u = s.update(i, t);
    let key = t.0.key_id();
    let pre = s.take(i);
    let post = s.skip(i + 1);
    assert(u =~= pre + (seq![t] + post));
    assert(s =~= pre + (seq![s[i]] + post));
    assert forall|a: int, b: int| 0 <= a < b < u.len() implies (u[a].0).key_id()
        < (u[b].0).key_id() by {
        assert(u[a] == if a == i { t } else { s[a] });
        assert(u[b] == if b == i { t } else { s[b] });
    }
    assert forall|a: int| 0 <= a < pre.len() implies (#[trigger] pre[a].0).key_id() != key by {
        assert(pre[a] == s[a]);
    }
    lemma_coeff_of_absent(pre, key);
    assert forall|id: int| true implies coeff_of(u, id) == if coeff_of(pre, id) is Some {
        coeff_of(pre, id)
    } else if key == id {
        Some(t.1)
    } else {
        coeff_of(post, id)
    } by {
        lemma_coeff_of_split(pre, t, post, id);
    }
    assert forall|id: int| true implies coeff_of(s, id) == if coeff_of(pre, id) is Some {
        coeff_of(pre, id)
    } else if key == id {
        Some(s[i].1)
    } else {
        coeff_of(post, id)
    } by {
        lemma_coeff_of_split(pre, s[i], post, id);
    }
}

/// `coeff_of` looks in `a` first, then in `b`.
pub proof fn lemma_coeff_of_concat<K: ExprVariable, C: Coeff>(
    a: Seq<(K, C)>,
    b: Seq<(K, C)>,
    id: int,
)
    ensures
        coeff_of(a + b, id) == if coeff_of(a, id) is Some {
            coeff_of(a, id)
        } else {
            coeff_of(b, id)
        },
    decreases a.len(),
{
    if a.len() == 0 {
        assert(a + b =~= b);
    } else {
        assert((a + b).drop_first() =~= a.drop_first() + b);
        lemma_coeff_of_concat(a.drop_first(), b, id);
    }
}

/// `coeff_of` on a one-term sequence.
pub proof fn lemma_coeff_of_singleton<K: ExprVariable, C: Coeff>(t: (K, C), id: int)
    ensures
        coeff_of(seq![t], id) == if t.0.key_id() == id {
            Some(t.1)
        } else {
            None::<C>
        },
{
    let m = seq![t];
    assert(m.drop_first() =~= Seq::<(K, C)>::empty());
    assert(coeff_of(Seq::<(K, C)>::empty(), id) is None);
}

/// `coeff_of` on a sequence split around one distinguished term.
proof fn lemma_coeff_of_split<K: ExprVariable, C: Coeff>(
    pre: Seq<(K, C)>,
    t: (K, C),
    post: Seq<(K, C)>,
    id: int,
)
    ensures
        coeff_of(pre + (seq![t] + post), id) == if coeff_of(pre, id) is Some {
            coeff_of(pre, id)
        } else if t.0.key_id() == id {
            Some(t.1)
        } else {
            coeff_of(post, id)
        },
{
    lemma_coeff_of_concat(pre, seq![t] + post, id);
    lemma_coeff_of_concat(seq![t], post, id);
    lemma_coeff_of_singleton(t, id);
}

/// On a strictly sorted sequence, `coeff_of` finds exactly the stored term.
pub proof fn lemma_coeff_of_present<K: ExprVariable, C: Coeff>(s: Seq<(K, C)>, i: int)
    requires
        strictly_sorted(s),
        0 <= i < s.len(),
    ensures
        coeff_of(s, s[i].0.key_id()) == Some(s[i].1),
    decreases i,
{
    if i > 0 {
        lemma_coeff_of_present(s.drop_first(), i - 1);
    }
}

/// A stored coefficient is never negligible in a significant sequence.
pub proof fn lemma_coeff_of_some_significant<K: ExprVariable, C: Coeff>(s: Seq<(K, C)>, id: int)
    requires
        all_significant(s),
        coeff_of(s, id) is Some,
    ensures
        !coeff_of(s, id)->Some_0.negligible(),
    decreases s.len(),
{
    if s.len() > 0 && s[0].0.key_id() != id {
        lemma_coeff_of_some_significant(s.drop_first(), id);
    }
}

/// A key stored nowhere has no coefficient.
pub proof fn lemma_coeff_of_absent<K: ExprVariable, C: Coeff>(s: Seq<(K, C)>, id: int)
    requires
        forall|i: int| 0 <= i < s.len() ==> (#[trigger] s[i].0).key_id() != id,
    ensures
        coeff_of(s, id) is None,
    decreases s.len(),
{
    if s.len() > 0 {
        lemma_coeff_of_absent(s.drop_first(), id);
    }
}

/// A prefix of a well-formed term sequence is well-formed.
pub proof fn lemma_prefix_props<K: ExprVariable, C: Coeff>(s: Seq<(K, C)>, n: int)
    requires
        strictly_sorted(s),
        all_significant(s),
        0 <= n <= s.len(),
    ensures
        strictly_sorted(s.take(n)),
        all_significant(s.take(n)),
{
    let u = s.take(n);
    assert forall|a: int, b: int| 0 <= a < b < u.len() implies (u[a].0).key_id()
        < (u[b].0).key_id() by {
        assert(u[a] == s[a]);
        assert(u[b] == s[b]);
    }
    assert forall|a: int| 0 <= a < u.len() implies !(u[a].1).negligible() by {
        assert(u[a] == s[a]);
    }
}

/// Effect of removing the term at `i` from a well-formed term sequence.
pub proof fn lemma_remove_effect<K: ExprVariable, C: Coeff>(s: Seq<(K, C)>, i: int)
    requires
        strictly_sorted(s),
        all_significant(s),
        0 <= i < s.len(),
    ensures
        strictly_sorted(s.remove(i)),
        all_significant(s.remove(i)),
        coeff_of(s.remove(i), s[i].0.key_id()) is None,
        forall|id: int| id != s[i].0.key_id() ==> coeff_of(s.remove(i), id) == coeff_of(s, id),
{
    let u = s.remove(i);
    let key = s[i].0.key_id();
    let pre = s.take(i);
    let post = s.skip(i + 1);
    assert(u =~= pre + post);
    assert(s =~= pre + (seq![s[i]] + post));
    assert forall|a: int, b: int| 0 <= a < b < u.len() implies (u[a].0).key_id()
        < (u[b].0).key_id() by {
        assert(u[a] == if a < i { s[a] } else { s[a + 1] });
        assert(u[b] == if b < i { s[b] } else { s[b + 1] });
    }
    assert forall|a: int| 0 <= a < u.len() implies !(u[a].1).negligible() by {
        assert(u[a] == if a < i { s[a] } else { s[a + 1] });
    }
    assert forall|a: int| 0 <= a < pre.len() implies (#[trigger] pre[a].0).key_id() != key by {
        assert(pre[a] == s[a]);
    }
    assert forall|a: int| 0 <= a < post.len() implies (#[trigger] post[a].0).key_id() != key by {
        assert(post[a] == s[a + i + 1]);
    }
    lemma_coeff_of_absent(pre, key);
    lemma_coeff_of_absent(post, key);
    assert forall|id: int| true implies coeff_of(u, id) == if coeff_of(pre, id) is Some {
        coeff_of(pre, id)
    } else {
        coeff_of(post, id)
    } by {
        lemma_coeff_of_concat(pre, post, id);
    }
    assert forall|id: int| true implies coeff_of(s, id) == if coeff_of(pre, id) is Some {
        coeff_of(pre, id)
    } else if key == id {
        Some(s[i].1)
    } else {
        coeff_of(post, id)
    } by {
        lemma_coeff_of_split(pre, s[i], post, id);
    }
}

/// Effect of replacing the term at `i` by one with the same key.
pub proof fn lemma_update_effect<K: ExprVariable, C: Coeff>(s: Seq<(K, C)>, i: int, t: (K, C))
    requires
        strictly_sorted(s),
        all_significant(s),
        0 <= i < s.len(),
        t.0.key_id() == s[i].0.key_id(),
        !t.1.negligible(),
    ensures
        strictly_sorted(s.update(i, t)),
        all_significant(s.update(i, t)),
        coeff_of(s.update(i, t), t.0.key_id()) == Some(t.1),
        forall|id: int| id != t.0.key_id() ==> coeff_of(s.update(i, t), id) == coeff_of(s, id),
{
    let u = s.update(i, t);
    let key = t.0.key_id();
    let pre = s.take(i);
    let post = s.skip(i + 1);
    assert(u =~= pre + (seq![t] + post));
    assert(s =~= pre + (seq![s[i]] + post));
    assert forall|a: int, b: int| 0 <= a < b < u.len() implies (u[a].0).key_id()
        < (u[b].0).key_id() by {
        assert(u[a] == if a == i { t } else { s[a] });
        assert(u[b] == if b == i { t } else { s[b] });
    }
    assert forall|a: int| 0 <= a < u.len() implies !(u[a].1).negligible() by {
        assert(u[a] == if a == i { t } else { s[a] });
    }
    assert forall|a: int| 0 <= a < pre.len() implies (#[trigger] pre[a].0).key_id() != key by {
        assert(pre[a] == s[a]);
    }
    lemma_coeff_of_absent(pre, key);
    assert forall|id: int| true implies coeff_of(u, id) == if coeff_of(pre, id) is Some {
        coeff_of(pre, id)
    } else if key == id {
        Some(t.1)
    } else {
        coeff_of(post, id)
    } by {
        lemma_coeff_of_split(pre, t, post, id);
    }
    assert forall|id: int| true implies coeff_of(s, id) == if coeff_of(pre, id) is Some {
        coeff_of(pre, id)
    } else if key == id {
        Some(s[i].1)
    } else {
        coeff_of(post, id)
    } by {
        lemma_coeff_of_split(pre, s[i], post, id);
    }
}

/// Effect of inserting a term at its sorted position.
pub proof fn lemma_insert_effect<K: ExprVariable, C: Coeff>(s: Seq<(K, C)>, i: int, t: (K, C))
    requires
        strictly_sorted(s),
        all_significant(s),
        0 <= i <= s.len(),
        forall|a: int| 0 <= a < i ==> (#[trigger] s[a].0).key_id() < t.0.key_id(),
        forall|a: int| i <= a < s.len() ==> (#[trigger] s[a].0).key_id() > t.0.key_id(),
        !t.1.negligible(),
    ensures
        strictly_sorted(s.insert(i, t)),
        all_significant(s.insert(i, t)),
        coeff_of(s.insert(i, t), t.0.key_id()) == Some(t.1),
        forall|id: int| id != t.0.key_id() ==> coeff_of(s.insert(i, t), id) == coeff_of(s, id),
{
    let u = s.insert(i, t);
    let key = t.0.key_id();
    let pre = s.take(i);
    let post = s.skip(i);
    assert(u =~= pre + (seq![t] + post));
    assert(s =~= pre + post);
    assert forall|a: int, b: int| 0 <= a < b < u.len() implies (u[a].0).key_id()
        < (u[b].0).key_id() by {
        assert(u[a] == if a < i { s[a] } else if a == i { t } else { s[a - 1] });
        assert(u[b] == if b < i { s[b] } else if b == i { t } else { s[b - 1] });
    }
    assert forall|a: int| 0 <= a < u.len() implies !(u[a].1).negligible() by {
        assert(u[a] == if a < i { s[a] } else if a == i { t } else { s[a - 1] });
    }
    assert forall|a: int| 0 <= a < pre.len() implies (#[trigger] pre[a].0).key_id() != key by {
        assert(pre[a] == s[a]);
    }
    lemma_coeff_of_absent(pre, key);
    assert forall|id: int| true implies coeff_of(u, id) == if coeff_of(pre, id) is Some {
        coeff_of(pre, id)
    } else if key == id {
        Some(t.1)
    } else {
        coeff_of(post, id)
    } by {
        lemma_coeff_of_split(pre, t, post, id);
    }
    assert forall|id: int| true implies coeff_of(s, id) == if coeff_of(pre, id) is Some {
        coeff_of(pre, id)
    } else {
        coeff_of(post, id)
    } by {
        lemma_coeff_of_concat(pre, post, id);
    }
}

/// Effect of appending a term whose key exceeds every stored key.
pub proof fn lemma_push_effect<K: ExprVariable, C: Coeff>(s: Seq<(K, C)>, t: (K, C))
    requires
        strictly_sorted(s),
        all_significant(s),
        forall|a: int| 0 <= a < s.len() ==> (#[trigger] s[a].0).key_id() < t.0.key_id(),
        !t.1.negligible(),
    ensures
        strictly_sorted(s.push(t)),
        all_significant(s.push(t)),
        coeff_of(s.push(t), t.0.key_id()) == Some(t.1),
        forall|id: int| id != t.0.key_id() ==> coeff_of(s.push(t), id) == coeff_of(s, id),
{
    assert(s.push(t) =~= s.insert(s.len() as int, t));
    lemma_insert_effect(s, s.len() as int, t);
}

} // verus!
