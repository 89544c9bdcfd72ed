use vstd::prelude::*;
use crate::dict_variable::DictionaryVariable;
use crate::expression::{
    added_coeff, coeff_of, lemma_coeff_of_absent, lemma_coeff_of_some_significant, merged_coeff,
    scaled_coeff, Coeff, ExprVariable, LinearExpr,
};

verus! {

/// One dictionary row `basic = expr`, where `expr` is a constant plus
/// terms over non-basic variables.
pub struct SlackRow<C: Coeff> {
    pub basic: DictionaryVariable,
    pub expr: LinearExpr<DictionaryVariable, C>,
}

/// A term sequence whose keys are all non-slack variables.
pub open spec fn non_slack_terms<C: Coeff>(s: Seq<(DictionaryVariable, C)>) -> bool {
    forall|i: int| 0 <= i < s.len() ==> (#[trigger] s[i].0) is NonSlack
}

/// The dictionary form of a standard model: one row per constraint, each
/// owned by its basic variable, plus the objective expression over
/// non-basic variables.
///
/// The invariant [`SlackDictionary::wf`] is the structural simplex
/// invariant: every row expression is well-formed, basics are pairwise
/// distinct, and no basic variable appears on any right-hand side or in
/// the objective. Every operation preserves it.
pub struct SlackDictionary<C: Coeff> {
    rows: Vec<SlackRow<C>>,
    objective: LinearExpr<DictionaryVariable, C>,
}

impl<C: Coeff> SlackDictionary<C> {
    pub closed spec fn rows_view(self) -> Seq<SlackRow<C>> {
        self.rows@
    }

    pub closed spec fn objective_view(self) -> LinearExpr<DictionaryVariable, C> {
        self.objective
    }

    /// The structural dictionary invariant: each basic variable labels
    /// exactly one row and appears in no row expression and not in the
    /// objective.
    pub open spec fn wf(self) -> bool {
        &&& self.objective_view().wf()
        &&& forall|r: int|
            0 <= r < self.rows_view().len() ==> (#[trigger] self.rows_view()[r]).expr.wf()
        &&& forall|r1: int, r2: int|
            0 <= r1 < self.rows_view().len() && 0 <= r2 < self.rows_view().len() && r1 != r2 ==> (
            #[trigger] self.rows_view()[r1]).basic.key_id() != (
            #[trigger] self.rows_view()[r2]).basic.key_id()
        &&& forall|r1: int, r2: int|
            0 <= r1 < self.rows_view().len() && 0 <= r2 < self.rows_view().len() ==> coeff_of(
                (#[trigger] self.rows_view()[r2]).expr@,
                (#[trigger] self.rows_view()[r1]).basic.key_id(),
            ) is None
        &&& forall|r: int|
            0 <= r < self.rows_view().len() ==> coeff_of(
                self.objective_view()@,
                (#[trigger] self.rows_view()[r]).basic.key_id(),
            ) is None
    }

    /// Builds the initial dictionary: the i-th expression (the right-hand
    /// side `bᵢ − ℓᵢ` of the i-th standard constraint, over non-slack
    /// variables) becomes the row of the slack variable `Slack(i)`.
    pub fn from_rows(
        row_exprs: Vec<LinearExpr<DictionaryVariable, C>>,
        objective: LinearExpr<DictionaryVariable, C>,
    ) -> (r: Self)
        requires
            forall|i: int|
                0 <= i < row_exprs@.len() ==> (#[trigger] row_exprs@[i]).wf() && non_slack_terms(
                    row_exprs@[i]@,
                ),
            objective.wf(),
            non_slack_terms(objective@),
        ensures
            r.wf(),
            r.rows_view().len() == row_exprs@.len(),
            forall|i: int|
                0 <= i < row_exprs@.len() ==> (#[trigger] r.rows_view()[i]).basic
                    == DictionaryVariable::Slack(i as usize) && r.rows_view()[i].expr
                    == row_exprs@[i],
            r.objective_view() == objective,
    {
        let ghost all = row_exprs@;
        let mut remaining = row_exprs;
        let mut rows: Vec<SlackRow<C>> = Vec::new();
        let n = remaining.len();
        let mut i: usize = 0;
        while i < n
            invariant
                n == all.len(),
                i <= n,
                remaining@ == all.skip(i as int),
                rows@.len() == i,
                forall|k: int|
                    0 <= k < i ==> (#[trigger] rows@[k]).basic == DictionaryVariable::Slack(
                        k as usize,
                    ) && rows@[k].expr == all[k],
            decreases n - i,
        {
            proof {
                assert(all.skip(i as int)[0] == all[i as int]);
                assert(all.skip(i as int).remove(0) =~= all.skip(i + 1));
            }
            let e = remaining.remove(0);
            rows.push(SlackRow { basic: DictionaryVariable::new_slack(i), expr: e });
            i = i + 1;
        }
        let d = SlackDictionary { rows, objective };
        proof {
            assert forall|r1: int, r2: int|
                0 <= r1 < d.rows_view().len() && 0 <= r2 < d.rows_view().len() implies coeff_of(
                (#[trigger] d.rows_view()[r2]).expr@,
                (#[trigger] d.rows_view()[r1]).basic.key_id(),
            ) is None by {
                lemma_non_slack_key_absent(d.rows_view()[r2].expr@, d.rows_view()[r1].basic);
            }
            assert forall|r: int| 0 <= r < d.rows_view().len() implies coeff_of(
                d.objective_view()@,
                (#[trigger] d.rows_view()[r]).basic.key_id(),
            ) is None by {
                lemma_non_slack_key_absent(d.objective_view()@, d.rows_view()[r].basic);
            }
        }
        d
    }

    /// Number of rows.
    pub fn num_rows(&self) -> (n: usize)
        ensures
            n == self.rows_view().len(),
    {
        self.rows.len()
    }

    /// The basic variable of a row.
    pub fn row_basic(&self, i: usize) -> (v: DictionaryVariable)
        requires
            i < self.rows_view().len(),
        ensures
            v == self.rows_view()[i as int].basic,
    {
        self.rows[i].basic
    }

    /// The constant of a row: the value its basic variable takes at the
    /// current basic solution.
    pub fn row_constant(&self, i: usize) -> (c: C)
        requires
            i < self.rows_view().len(),
        ensures
            c == self.rows_view()[i as int].expr.spec_constant(),
    {
        self.rows[i].expr.get_constant()
    }

    /// The coefficient a row carries for `var`, or zero when absent.
    pub fn row_coefficient(&self, i: usize, var: &DictionaryVariable) -> (c: C)
        requires
            self.wf(),
            i < self.rows_view().len(),
        ensures
            c == match coeff_of(self.rows_view()[i as int].expr@, var.key_id()) {
                Some(x) => x,
                None => C::zero_spec(),
            },
    {
        self.rows[i].expr.coefficient(var)
    }

    /// A copy of a row's expression.
    pub fn row_expr(&self, i: usize) -> (e: LinearExpr<DictionaryVariable, C>)
        requires
            i < self.rows_view().len(),
        ensures
            e@ == self.rows_view()[i as int].expr@,
            e.spec_constant() == self.rows_view()[i as int].expr.spec_constant(),
    {
        self.rows[i].expr.duplicate()
    }

    /// The current objective value: the objective's constant term.
    pub fn objective_value(&self) -> (c: C)
        ensures
            c == self.objective_view().spec_constant(),
    {
        self.objective.get_constant()
    }

    /// A copy of the objective expression.
    pub fn objective_expr(&self) -> (e: LinearExpr<DictionaryVariable, C>)
        ensures
            e@ == self.objective_view()@,
            e.spec_constant() == self.objective_view().spec_constant(),
    {
        self.objective.duplicate()
    }

    /// Replaces the objective, returning the previous one. The new
    /// objective must not mention any basic variable.
    pub fn replace_objective(&mut self, objective: LinearExpr<DictionaryVariable, C>) -> (r:
        LinearExpr<DictionaryVariable, C>)
        requires
            old(self).wf(),
            objective.wf(),
            forall|r: int|
                0 <= r < old(self).rows_view().len() ==> coeff_of(
                    objective@,
                    (#[trigger] old(self).rows_view()[r]).basic.key_id(),
                ) is None,
        ensures
            final(self).wf(),
            final(self).rows_view() == old(self).rows_view(),
            final(self).objective_view() == objective,
            r == old(self).objective_view(),
    {
        let mut tmp = objective;
        core::mem::swap(&mut self.objective, &mut tmp);
        tmp
    }

    /// Adds `coefficient · var` to every row expression: how the auxiliary
    /// variable enters every row at the start of Phase 1. `var` must not
    /// be basic anywhere.
    pub fn add_var_to_all_entries(&mut self, var: DictionaryVariable, coefficient: C)
        requires
            old(self).wf(),
            forall|r: int|
                0 <= r < old(self).rows_view().len() ==> (
                #[trigger] old(self).rows_view()[r]).basic.key_id() != var.key_id(),
        ensures
            final(self).wf(),
            final(self).rows_view().len() == old(self).rows_view().len(),
            final(self).objective_view() == old(self).objective_view(),
            forall|r: int|
                0 <= r < old(self).rows_view().len() ==> (#[trigger] final(self).rows_view()[r]).basic == old(self).rows_view()[r].basic,
            forall|r: int|
                0 <= r < old(self).rows_view().len() ==> (#[trigger] final(self).rows_view()[r]).expr.spec_constant() == old(self).rows_view()[r].expr.spec_constant(),
            forall|r: int|
                0 <= r < old(self).rows_view().len() ==> coeff_of(
                    (#[trigger] final(self).rows_view()[r]).expr@,
                    var.key_id(),
                ) == added_coeff(
                    coeff_of(old(self).rows_view()[r].expr@, var.key_id()),
                    coefficient,
                ),
            forall|r: int, id: int|
                0 <= r < old(self).rows_view().len() && id != var.key_id() ==> #[trigger] coeff_of(
                    final(self).rows_view()[r].expr@,
                    id,
                ) == coeff_of(old(self).rows_view()[r].expr@, id),
    {
        let n = self.rows.len();
        let mut i: usize = 0;
        while i < n
            invariant
                n == self.rows_view().len(),
                n == old(self).rows_view().len(),
                i <= n,
                self.objective_view() == old(self).objective_view(),
                forall|r: int|
                    0 <= r < n ==> (#[trigger] self.rows_view()[r]).basic == old(self).rows_view()[r].basic,
                forall|r: int|
                    0 <= r < n ==> (#[trigger] old(self).rows_view()[r]).basic.key_id()
                        != var.key_id(),
                forall|r: int| i <= r < n ==> (#[trigger] self.rows_view()[r]).expr == old(self).rows_view()[r].expr,
                forall|r: int| 0 <= r < n ==> (#[trigger] self.rows_view()[r]).expr.wf(),
                forall|r: int|
                    0 <= r < i ==> (#[trigger] self.rows_view()[r]).expr.spec_constant() == old(self).rows_view()[r].expr.spec_constant(),
                forall|r: int|
                    0 <= r < i ==> coeff_of(
                        (#[trigger] self.rows_view()[r]).expr@,
                        var.key_id(),
                    ) == added_coeff(
                        coeff_of(old(self).rows_view()[r].expr@, var.key_id()),
                        coefficient,
                    ),
                forall|r: int, id: int|
                    0 <= r < i && id != var.key_id() ==> #[trigger] coeff_of(
                        self.rows_view()[r].expr@,
                        id,
                    ) == coeff_of(old(self).rows_view()[r].expr@, id),
                old(self).wf(),
            decreases n - i,
        {
            self.rows[i].expr.add_term(var, coefficient);
            i = i + 1;
        }
        proof {
            lemma_wf_from_pointwise(*old(self), *self, var.key_id());
        }
    }

    /// Removes `var` from every row expression: how the auxiliary variable
    /// leaves the dictionary after Phase 1. `var` must not be basic
    /// anywhere.
    pub fn remove_var_from_all_entries(&mut self, var: DictionaryVariable)
        requires
            old(self).wf(),
            forall|r: int|
                0 <= r < old(self).rows_view().len() ==> (
                #[trigger] old(self).rows_view()[r]).basic.key_id() != var.key_id(),
        ensures
            final(self).wf(),
            final(self).rows_view().len() == old(self).rows_view().len(),
            final(self).objective_view() == old(self).objective_view(),
            forall|r: int|
                0 <= r < old(self).rows_view().len() ==> (#[trigger] final(self).rows_view()[r]).basic == old(self).rows_view()[r].basic,
            forall|r: int|
                0 <= r < old(self).rows_view().len() ==> (#[trigger] final(self).rows_view()[r]).expr.spec_constant() == old(self).rows_view()[r].expr.spec_constant(),
            forall|r: int|
                0 <= r < old(self).rows_view().len() ==> coeff_of(
                    (#[trigger] final(self).rows_view()[r]).expr@,
                    var.key_id(),
                ) is None,
            forall|r: int, id: int|
                0 <= r < old(self).rows_view().len() && id != var.key_id() ==> #[trigger] coeff_of(
                    final(self).rows_view()[r].expr@,
                    id,
                ) == coeff_of(old(self).rows_view()[r].expr@, id),
    {
        let n = self.rows.len();
        let mut i: usize = 0;
        while i < n
            invariant
                n == self.rows_view().len(),
                n == old(self).rows_view().len(),
                i <= n,
                self.objective_view() == old(self).objective_view(),
                forall|r: int|
                    0 <= r < n ==> (#[trigger] self.rows_view()[r]).basic == old(self).rows_view()[r].basic,
                forall|r: int|
                    0 <= r < n ==> (#[trigger] old(self).rows_view()[r]).basic.key_id()
                        != var.key_id(),
                forall|r: int| i <= r < n ==> (#[trigger] self.rows_view()[r]).expr == old(self).rows_view()[r].expr,
                forall|r: int| 0 <= r < n ==> (#[trigger] self.rows_view()[r]).expr.wf(),
                forall|r: int|
                    0 <= r < i ==> (#[trigger] self.rows_view()[r]).expr.spec_constant() == old(self).rows_view()[r].expr.spec_constant(),
                forall|r: int|
                    0 <= r < i ==> coeff_of(
                        (#[trigger] self.rows_view()[r]).expr@,
                        var.key_id(),
                    ) is None,
                forall|r: int, id: int|
                    0 <= r < i && id != var.key_id() ==> #[trigger] coeff_of(
                        self.rows_view()[r].expr@,
                        id,
                    ) == coeff_of(old(self).rows_view()[r].expr@, id),
                old(self).wf(),
            decreases n - i,
        {
            self.rows[i].expr.remove_term(&var);
            i = i + 1;
        }
        proof {
            lemma_wf_from_pointwise(*old(self), *self, var.key_id());
        }
    }

    /// Drops a row entirely: the redundant-equality case at the Phase 1
    /// to Phase 2 transition, when the auxiliary variable is basic in a
    /// row whose other coefficients are all negligible.
    pub fn remove_entry(&mut self, i: usize)
        requires
            old(self).wf(),
            i < old(self).rows_view().len(),
        ensures
            final(self).wf(),
            final(self).rows_view() == old(self).rows_view().remove(i as int),
            final(self).objective_view() == old(self).objective_view(),
    {
        self.rows.remove(i);
        proof {
            let u = self.rows_view();
            let s = old(self).rows_view();
            assert forall|r: int| 0 <= r < u.len() implies (#[trigger] u[r]) == if r < i {
                s[r]
            } else {
                s[r + 1]
            } by {}
        }
    }

    /// Pivots `entering` into the basis against the row at `row_idx`, whose
    /// current basic variable leaves the basis.
    ///
    /// The row is rewritten by removing the entering term (coefficient
    /// `α`), inserting the old basic with coefficient −1, and scaling the
    /// whole row by `1 / (−α)`; the rewritten row is then substituted for
    /// the entering variable in every other row and in the objective.
    pub fn pivot(&mut self, entering: DictionaryVariable, row_idx: usize)
        requires
            old(self).wf(),
            row_idx < old(self).rows_view().len(),
            coeff_of(old(self).rows_view()[row_idx as int].expr@, entering.key_id()) is Some,
            forall|r: int|
                0 <= r < old(self).rows_view().len() ==> (
                #[trigger] old(self).rows_view()[r]).basic.key_id() != entering.key_id(),
        ensures
            pivot_relation(*old(self), *final(self), entering, row_idx as int),
    {
        let ghost oldd = *old(self);
        let ghost old_row_seq = oldd.rows_view()[row_idx as int].expr@;
        let old_basic = self.rows[row_idx].basic;
        proof {
            lemma_coeff_of_some_significant(old_row_seq, entering.key_id());
        }
        let alpha_opt = self.rows[row_idx].expr.remove_term(&entering);
        let alpha = alpha_opt.unwrap();
        proof {
            C::neg_significance(alpha);
        }
        let minus_one = C::one().negated();
        self.rows[row_idx].expr.add_term(old_basic, minus_one);
        let factor = C::one().divided_by(alpha.negated());
        self.rows[row_idx].expr.scale(factor);
        self.rows[row_idx].basic = entering;
        let repl = self.rows[row_idx].expr.duplicate();
        proof {
            assert(self.rows_view()[row_idx as int].expr.wf());
            assert forall|id: int| true implies #[trigger] coeff_of(repl@, id) == pivoted_coeff(
                old_row_seq,
                old_basic,
                entering.key_id(),
                id,
            ) by {}
            assert(coeff_of(repl@, entering.key_id()) is None);
            assert forall|r: int|
                0 <= r < oldd.rows_view().len() && r != row_idx implies coeff_of(
                repl@,
                (#[trigger] oldd.rows_view()[r]).basic.key_id(),
            ) is None by {
                let b = oldd.rows_view()[r].basic.key_id();
                assert(coeff_of(old_row_seq, b) is None);
                assert(b != oldd.rows_view()[row_idx as int].basic.key_id());
            }
        }
        let n = self.rows.len();
        let mut r: usize = 0;
        while r < n
            invariant
                n == self.rows_view().len(),
                n == oldd.rows_view().len(),
                r <= n,
                row_idx < n,
                oldd.wf(),
                forall|k: int|
                    0 <= k < n ==> (#[trigger] oldd.rows_view()[k]).basic.key_id()
                        != entering.key_id(),
                self.rows_view()[row_idx as int].basic == entering,
                self.rows_view()[row_idx as int].expr@ == repl@,
                self.rows_view()[row_idx as int].expr.spec_constant() == repl.spec_constant(),
                repl.wf(),
                coeff_of(repl@, entering.key_id()) is None,
                forall|k: int|
                    0 <= k < n && k != row_idx ==> coeff_of(
                        repl@,
                        (#[trigger] oldd.rows_view()[k]).basic.key_id(),
                    ) is None,
                forall|k: int|
                    0 <= k < n && k != row_idx ==> (#[trigger] self.rows_view()[k]).basic
                        == oldd.rows_view()[k].basic,
                forall|k: int|
                    r <= k < n && k != row_idx ==> (#[trigger] self.rows_view()[k]).expr
                        == oldd.rows_view()[k].expr,
                forall|k: int| 0 <= k < n ==> (#[trigger] self.rows_view()[k]).expr.wf(),
                forall|k: int, id: int|
                    0 <= k < r && k != row_idx ==> #[trigger] coeff_of(
                        self.rows_view()[k].expr@,
                        id,
                    ) == substituted_coeff(
                        oldd.rows_view()[k].expr@,
                        repl@,
                        entering.key_id(),
                        id,
                    ),
                forall|k: int|
                    0 <= k < r && k != row_idx ==> (#[trigger] self.rows_view()[k]).expr
                        .spec_constant() == substituted_constant(
                        oldd.rows_view()[k].expr@,
                        oldd.rows_view()[k].expr.spec_constant(),
                        repl.spec_constant(),
                        entering.key_id(),
                    ),
                self.objective_view() == oldd.objective_view(),
            decreases n - r,
        {
            if r != row_idx {
                let ghost before = self.rows_view()[r as int].expr;
                self.rows[r].expr.replace_var_with_expr(entering, &repl);
                proof {
                    assert forall|id: int| true implies #[trigger] coeff_of(
                        self.rows_view()[r as int].expr@,
                        id,
                    ) == substituted_coeff(before@, repl@, entering.key_id(), id) by {}
                }
            }
            r = r + 1;
        }
        self.objective.replace_var_with_expr(entering, &repl);
        proof {
            lemma_wf_after_pivot(oldd, *self, entering, row_idx as int, repl);
        }
    }
}

/// The coefficient that the pivot row carries for `id` after the pivot
/// rewrite: entering removed (its coefficient was `α`), the old basic
/// inserted with coefficient −1, and the row scaled by `1 / (−α)`.
pub open spec fn pivoted_coeff<C: Coeff>(
    old_row: Seq<(DictionaryVariable, C)>,
    old_basic: DictionaryVariable,
    entering_id: int,
    id: int,
) -> Option<C> {
    let alpha = coeff_of(old_row, entering_id)->Some_0;
    let factor = C::one_spec().div_spec(alpha.neg_spec());
    let base = if id == entering_id {
        None
    } else {
        coeff_of(old_row, id)
    };
    let with_basic = if id == old_basic.key_id() {
        added_coeff(base, C::one_spec().neg_spec())
    } else {
        base
    };
    if factor.negligible() {
        None
    } else {
        scaled_coeff(with_basic, factor)
    }
}

/// The pivot row's constant after the rewrite.
pub open spec fn pivoted_constant<C: Coeff>(
    old_row: Seq<(DictionaryVariable, C)>,
    old_constant: C,
    entering_id: int,
) -> C {
    let alpha = coeff_of(old_row, entering_id)->Some_0;
    let factor = C::one_spec().div_spec(alpha.neg_spec());
    if factor.negligible() {
        C::zero_spec()
    } else {
        old_constant.mul_spec(factor)
    }
}

/// The coefficient an expression carries for `id` after the entering
/// variable is substituted by the rewritten pivot row `repl`: nothing
/// changes when the expression did not mention the entering variable,
/// else `repl` is merged in, scaled by the entering coefficient.
pub open spec fn substituted_coeff<C: Coeff>(
    old_s: Seq<(DictionaryVariable, C)>,
    repl: Seq<(DictionaryVariable, C)>,
    entering_id: int,
    id: int,
) -> Option<C> {
    match coeff_of(old_s, entering_id) {
        None => coeff_of(old_s, id),
        Some(c) => merged_coeff(
            if id == entering_id {
                None
            } else {
                coeff_of(old_s, id)
            },
            coeff_of(repl, id),
            c,
        ),
    }
}

/// The constant of an expression after the same substitution.
pub open spec fn substituted_constant<C: Coeff>(
    old_s: Seq<(DictionaryVariable, C)>,
    old_constant: C,
    repl_constant: C,
    entering_id: int,
) -> C {
    match coeff_of(old_s, entering_id) {
        None => old_constant,
        Some(c) => old_constant.add_spec(repl_constant.mul_spec(c)),
    }
}

/// The complete effect of one pivot of `entering` against the row at
/// `row_idx`: the dictionary stays well-formed, `entering` takes over the
/// row and every other basic stays, the pivot row is rewritten per
/// `pivoted_coeff`/`pivoted_constant`, and the rewritten row is
/// substituted for `entering` in every other row and in the objective.
pub open spec fn pivot_relation<C: Coeff>(
    pre: SlackDictionary<C>,
    post: SlackDictionary<C>,
    entering: DictionaryVariable,
    row_idx: int,
) -> bool {
    &&& post.wf()
    &&& post.rows_view().len() == pre.rows_view().len()
    &&& 0 <= row_idx < pre.rows_view().len()
    &&& post.rows_view()[row_idx].basic == entering
    &&& forall|r: int|
        0 <= r < pre.rows_view().len() && r != row_idx ==> (#[trigger] post.rows_view()[r]).basic
            == pre.rows_view()[r].basic
    &&& forall|id: int|
        #[trigger] coeff_of(post.rows_view()[row_idx].expr@, id) == pivoted_coeff(
            pre.rows_view()[row_idx].expr@,
            pre.rows_view()[row_idx].basic,
            entering.key_id(),
            id,
        )
    &&& post.rows_view()[row_idx].expr.spec_constant() == pivoted_constant(
        pre.rows_view()[row_idx].expr@,
        pre.rows_view()[row_idx].expr.spec_constant(),
        entering.key_id(),
    )
    &&& forall|r: int, id: int|
        0 <= r < pre.rows_view().len() && r != row_idx ==> #[trigger] coeff_of(
            post.rows_view()[r].expr@,
            id,
        ) == substituted_coeff(
            pre.rows_view()[r].expr@,
            post.rows_view()[row_idx].expr@,
            entering.key_id(),
            id,
        )
    &&& forall|r: int|
        0 <= r < pre.rows_view().len() && r != row_idx ==> (#[trigger] post.rows_view()[r]).expr
            .spec_constant() == substituted_constant(
            pre.rows_view()[r].expr@,
            pre.rows_view()[r].expr.spec_constant(),
            post.rows_view()[row_idx].expr.spec_constant(),
            entering.key_id(),
        )
    &&& forall|id: int|
        #[trigger] coeff_of(post.objective_view()@, id) == substituted_coeff(
            pre.objective_view()@,
            post.rows_view()[row_idx].expr@,
            entering.key_id(),
            id,
        )
    &&& post.objective_view().spec_constant() == substituted_constant(
        pre.objective_view()@,
        pre.objective_view().spec_constant(),
        post.rows_view()[row_idx].expr.spec_constant(),
        entering.key_id(),
    )
}

/// Reassembles the dictionary invariant after a pivot from the pointwise
/// facts about the rewritten row, the substituted rows and the objective.
proof fn lemma_wf_after_pivot<C: Coeff>(
    pre: SlackDictionary<C>,
    post: SlackDictionary<C>,
    entering: DictionaryVariable,
    row_idx: int,
    repl: LinearExpr<DictionaryVariable, C>,
)
    requires
        pre.wf(),
        0 <= row_idx < pre.rows_view().len(),
        post.rows_view().len() == pre.rows_view().len(),
        forall|k: int|
            0 <= k < pre.rows_view().len() ==> (#[trigger] pre.rows_view()[k]).basic.key_id()
                != entering.key_id(),
        post.rows_view()[row_idx].basic == entering,
        post.rows_view()[row_idx].expr@ == repl@,
        repl.wf(),
        coeff_of(repl@, entering.key_id()) is None,
        forall|k: int|
            0 <= k < pre.rows_view().len() && k != row_idx ==> coeff_of(
                repl@,
                (#[trigger] pre.rows_view()[k]).basic.key_id(),
            ) is None,
        forall|k: int|
            0 <= k < pre.rows_view().len() && k != row_idx ==> (#[trigger] post.rows_view()[k]).basic
                == pre.rows_view()[k].basic,
        forall|k: int| 0 <= k < post.rows_view().len() ==> (#[trigger] post.rows_view()[k]).expr.wf(),
        forall|k: int, id: int|
            0 <= k < pre.rows_view().len() && k != row_idx ==> #[trigger] coeff_of(
                post.rows_view()[k].expr@,
                id,
            ) == substituted_coeff(pre.rows_view()[k].expr@, repl@, entering.key_id(), id),
        post.objective_view().wf(),
        forall|id: int|
            #[trigger] coeff_of(post.objective_view()@, id) == substituted_coeff(
                pre.objective_view()@,
                repl@,
                entering.key_id(),
                id,
            ),
    ensures
        post.wf(),
{
    let n = pre.rows_view().len();
    assert forall|r1: int, r2: int|
        0 <= r1 < n && 0 <= r2 < n && r1 != r2 implies (
    #[trigger] post.rows_view()[r1]).basic.key_id() != (
    #[trigger] post.rows_view()[r2]).basic.key_id() by {}
    assert forall|r1: int, r2: int| 0 <= r1 < n && 0 <= r2 < n implies coeff_of(
        (#[trigger] post.rows_view()[r2]).expr@,
        (#[trigger] post.rows_view()[r1]).basic.key_id(),
    ) is None by {
        let b = post.rows_view()[r1].basic.key_id();
        if r2 == row_idx {
            if r1 != row_idx {
                assert(coeff_of(repl@, pre.rows_view()[r1].basic.key_id()) is None);
            }
        } else {
            assert(coeff_of(post.rows_view()[r2].expr@, b) == substituted_coeff(
                pre.rows_view()[r2].expr@,
                repl@,
                entering.key_id(),
                b,
            ));
            if r1 == row_idx {
                assert(coeff_of(pre.rows_view()[r2].expr@, b) == coeff_of(
                    pre.rows_view()[r2].expr@,
                    entering.key_id(),
                ));
            } else {
                assert(coeff_of(pre.rows_view()[r2].expr@, b) is None);
            }
        }
    }
    assert forall|r: int| 0 <= r < n implies coeff_of(
        post.objective_view()@,
        (#[trigger] post.rows_view()[r]).basic.key_id(),
    ) is None by {
        let b = post.rows_view()[r].basic.key_id();
        assert(coeff_of(post.objective_view()@, b) == substituted_coeff(
            pre.objective_view()@,
            repl@,
            entering.key_id(),
            b,
        ));
        if r == row_idx {
            assert(coeff_of(pre.objective_view()@, b) == coeff_of(
                pre.objective_view()@,
                entering.key_id(),
            ));
        } else {
            assert(coeff_of(pre.objective_view()@, b) is None);
        }
    }
}

/// A slack or auxiliary key never occurs in a term sequence over
/// non-slack keys (key encodings differ by parity, auxiliary is zero).
pub proof fn lemma_non_slack_key_absent<C: Coeff>(
    s: Seq<(DictionaryVariable, C)>,
    v: DictionaryVariable,
)
    requires
        non_slack_terms(s),
        !(v is NonSlack),
    ensures
        coeff_of(s, v.key_id()) is None,
{
    assert forall|i: int| 0 <= i < s.len() implies (#[trigger] s[i].0).key_id() != v.key_id() by {
        assert(s[i].0 is NonSlack);
    }
    lemma_coeff_of_absent(s, v.key_id());
}

/// Re-derives the dictionary invariant after every row expression changed
/// only at one non-basic key (`add_var_to_all_entries` /
/// `remove_var_from_all_entries`).
proof fn lemma_wf_from_pointwise<C: Coeff>(
    pre: SlackDictionary<C>,
    post: SlackDictionary<C>,
    changed_id: int,
)
    requires
        pre.wf(),
        post.rows_view().len() == pre.rows_view().len(),
        post.objective_view() == pre.objective_view(),
        forall|r: int|
            0 <= r < pre.rows_view().len() ==> (#[trigger] post.rows_view()[r]).basic
                == pre.rows_view()[r].basic,
        forall|r: int|
            0 <= r < pre.rows_view().len() ==> (#[trigger] pre.rows_view()[r]).basic.key_id()
                != changed_id,
        forall|r: int| 0 <= r < pre.rows_view().len() ==> (#[trigger] post.rows_view()[r]).expr.wf(),
        forall|r: int, id: int|
            0 <= r < pre.rows_view().len() && id != changed_id ==> #[trigger] coeff_of(
                post.rows_view()[r].expr@,
                id,
            ) == coeff_of(pre.rows_view()[r].expr@, id),
    ensures
        post.wf(),
{
    assert forall|r1: int, r2: int|
        0 <= r1 < post.rows_view().len() && 0 <= r2 < post.rows_view().len() implies coeff_of(
        (#[trigger] post.rows_view()[r2]).expr@,
        (#[trigger] post.rows_view()[r1]).basic.key_id(),
    ) is None by {
        assert(post.rows_view()[r1].basic == pre.rows_view()[r1].basic);
        assert(pre.rows_view()[r1].basic.key_id() != changed_id);
        assert(coeff_of(post.rows_view()[r2].expr@, pre.rows_view()[r1].basic.key_id())
            == coeff_of(pre.rows_view()[r2].expr@, pre.rows_view()[r1].basic.key_id()));
    }
}

} // verus!
