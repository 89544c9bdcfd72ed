use vstd::prelude::*;
use crate::dict_variable::DictionaryVariable;
use crate::dictionary::non_slack_terms;
use crate::expression::{coeff_of, Coeff, ExprVariable, LinearExpr};
use crate::keys::{StandardVariableKey, VariableKey};
use crate::solver::SolverSolution;

verus! {

/// Direction of a constraint: `lhs ≤ rhs`, `lhs ≥ rhs` or `lhs = rhs`.
#[derive(Debug, Clone, Copy, PartialEq, Eq, Structural)]
pub enum ConstraintSense {
    LessEqual,
    GreaterEqual,
    Equal,
}

/// Direction of the objective.
#[derive(Debug, Clone, Copy, PartialEq, Eq, Structural)]
pub enum ObjectiveSense {
    Minimize,
    Maximize,
}

/// Kind of a model variable. Integer variables are rejected at solve time;
/// binary variables are admitted as their `[0, 1]` relaxation.
#[derive(Debug, Clone, Copy, PartialEq, Eq, Structural)]
pub enum VariableType {
    Continuous,
    Integer,
    Binary,
}

/// Classification of a variable's lower bound as standardization sees it:
/// absent (negative infinity), exactly zero, or some other finite value.
#[derive(Debug, Clone, Copy, PartialEq, Eq, Structural)]
pub enum LowerBound {
    Unbounded,
    Zero,
    FiniteNonzero,
}

/// Classification of a variable's upper bound: absent (positive infinity),
/// exactly zero, or some other finite value.
#[derive(Debug, Clone, Copy, PartialEq, Eq, Structural)]
pub enum UpperBound {
    Unbounded,
    Zero,
    FiniteNonzero,
}

/// Which bound the shift of a `Positive` translation is taken from (a
/// `Negative` translation is always shifted by the upper bound).
#[derive(Debug, Clone, Copy, PartialEq, Eq, Structural)]
pub enum ShiftRule {
    NoShift,
    ByLowerBound,
}

/// Which upper-bound row, if any, standardization adds for a translated
/// variable (each row bounds the new non-negative variable `s`).
#[derive(Debug, Clone, Copy, PartialEq, Eq, Structural)]
pub enum UpperRowRule {
    /// No row: the translated variable is unbounded above.
    NoRow,
    /// `s ≤ 1` (binary relaxation).
    RowOne,
    /// `s ≤ ub`.
    RowUpperBound,
    /// `s ≤ −lb` (non-positive variable translated by its lower bound).
    RowNegatedLowerBound,
    /// `s ≤ ub − lb` (doubly bounded variable shifted to start at zero).
    RowUpperMinusLower,
}

/// How one model variable is represented over standard (non-negative)
/// variables, together with the row the translation owes.
///
/// - `Positive`: domain value = `s + shift`.
/// - `Negative`: domain value = `−s + shift`, shift taken from the upper
///   bound.
/// - `Split`: domain value = `sp − sn` for a free variable.
#[derive(Debug, Clone, Copy, PartialEq, Eq, Structural)]
pub enum MappingPlan {
    Positive { shift: ShiftRule, row: UpperRowRule },
    Negative,
    Split,
}

/// The translation table for variables, by bound classes.
///
/// Integer variables never reach standardization (they are rejected by
/// model validation), so the table is defined for continuous and binary
/// variables only.
pub open spec fn mapping_plan_spec(ty: VariableType, lb: LowerBound, ub: UpperBound) -> MappingPlan {
    if ty is Binary {
        MappingPlan::Positive { shift: ShiftRule::NoShift, row: UpperRowRule::RowOne }
    } else {
        match (lb, ub) {
            (LowerBound::Zero, UpperBound::Unbounded) => MappingPlan::Positive {
                shift: ShiftRule::NoShift,
                row: UpperRowRule::NoRow,
            },
            (LowerBound::Zero, _) => MappingPlan::Positive {
                shift: ShiftRule::NoShift,
                row: UpperRowRule::RowUpperBound,
            },
            (LowerBound::Unbounded, UpperBound::Unbounded) => MappingPlan::Split,
            (LowerBound::Unbounded, _) => MappingPlan::Negative,
            (LowerBound::FiniteNonzero, UpperBound::Zero) => MappingPlan::Positive {
                shift: ShiftRule::ByLowerBound,
                row: UpperRowRule::RowNegatedLowerBound,
            },
            (LowerBound::FiniteNonzero, UpperBound::Unbounded) => MappingPlan::Positive {
                shift: ShiftRule::ByLowerBound,
                row: UpperRowRule::NoRow,
            },
            (LowerBound::FiniteNonzero, UpperBound::FiniteNonzero) => MappingPlan::Positive {
                shift: ShiftRule::ByLowerBound,
                row: UpperRowRule::RowUpperMinusLower,
            },
        }
    }
}

/// Decides how a variable is translated to standard form, per the
/// translation table: binary becomes a non-negative variable bounded by 1;
/// a variable with zero lower bound keeps its upper bound as a row; a free
/// variable splits; a variable unbounded below mirrors to a negative part
/// shifted by its upper bound; and a variable with a finite nonzero lower
/// bound is shifted to start at zero.
pub fn variable_mapping_plan(ty: VariableType, lb: LowerBound, ub: UpperBound) -> (r: MappingPlan)
    requires
        !(ty is Integer),
    ensures
        r == mapping_plan_spec(ty, lb, ub),
{
    match ty {
        VariableType::Binary => MappingPlan::Positive {
            shift: ShiftRule::NoShift,
            row: UpperRowRule::RowOne,
        },
        _ => match (lb, ub) {
            (LowerBound::Zero, UpperBound::Unbounded) => MappingPlan::Positive {
                shift: ShiftRule::NoShift,
                row: UpperRowRule::NoRow,
            },
            (LowerBound::Zero, _) => MappingPlan::Positive {
                shift: ShiftRule::NoShift,
                row: UpperRowRule::RowUpperBound,
            },
            (LowerBound::Unbounded, UpperBound::Unbounded) => MappingPlan::Split,
            (LowerBound::Unbounded, _) => MappingPlan::Negative,
            (LowerBound::FiniteNonzero, UpperBound::Zero) => MappingPlan::Positive {
                shift: ShiftRule::ByLowerBound,
                row: UpperRowRule::RowNegatedLowerBound,
            },
            (LowerBound::FiniteNonzero, UpperBound::Unbounded) => MappingPlan::Positive {
                shift: ShiftRule::ByLowerBound,
                row: UpperRowRule::NoRow,
            },
            (LowerBound::FiniteNonzero, UpperBound::FiniteNonzero) => MappingPlan::Positive {
                shift: ShiftRule::ByLowerBound,
                row: UpperRowRule::RowUpperMinusLower,
            },
        },
    }
}

/// Whether constraint translation emits the row `e ≤ b` as given.
/// `LessEqual` and `Equal` do; `GreaterEqual` only emits the negated row.
pub fn emits_plain_row(sense: ConstraintSense) -> (r: bool)
    ensures
        r == (sense is LessEqual || sense is Equal),
{
    matches!(sense, ConstraintSense::LessEqual | ConstraintSense::Equal)
}

/// Whether constraint translation emits the negated row `−e ≤ −b`.
/// `GreaterEqual` does, and `Equal` emits it in addition to the plain row.
pub fn emits_negated_row(sense: ConstraintSense) -> (r: bool)
    ensures
        r == (sense is GreaterEqual || sense is Equal),
{
    matches!(sense, ConstraintSense::GreaterEqual | ConstraintSense::Equal)
}

/// Whether the objective is negated on the way into standard form (the
/// standard model always maximizes), and therefore negated again when the
/// optimum is reported.
pub fn objective_negated(sense: ObjectiveSense) -> (r: bool)
    ensures
        r == (sense is Minimize),
{
    matches!(sense, ObjectiveSense::Minimize)
}

/// The record kept per model variable once its translation is carried
/// out: which standard variables stand for it, and the shift applied.
/// Domain value = `s + shift` for `Positive`, `−s + shift` for `Negative`,
/// `sp − sn` for `Split`.
#[derive(Debug, Clone, Copy)]
pub enum VariableMapping<C: Coeff> {
    Positive { var: StandardVariableKey, shift: C },
    Negative { var: StandardVariableKey, shift: C },
    Split { pos: StandardVariableKey, neg: StandardVariableKey },
}

/// Evaluates one mapping record on a standard-form solution, lifting the
/// standard values back to the model variable they stand for.
pub fn reconstruct_value<C: Coeff>(
    mapping: &VariableMapping<C>,
    solution: &SolverSolution<C>,
) -> (r: C)
    requires
        solution.keys_unique(),
    ensures
        r == match *mapping {
            VariableMapping::Positive { var, shift } => solution.spec_value(var).add_spec(shift),
            VariableMapping::Negative { var, shift } => solution.spec_value(var).neg_spec()
                .add_spec(shift),
            VariableMapping::Split { pos, neg } => solution.spec_value(pos).add_spec(
                solution.spec_value(neg).neg_spec(),
            ),
        },
{
    match mapping {
        VariableMapping::Positive { var, shift } => solution.value(*var).plus(*shift),
        VariableMapping::Negative { var, shift } => solution.value(*var).negated().plus(*shift),
        VariableMapping::Split { pos, neg } => solution.value(*pos).plus(
            solution.value(*neg).negated(),
        ),
    }
}

/// The objective value reported to the caller: the standard-form optimum,
/// negated back when the original sense was minimization.
pub fn reported_objective<C: Coeff>(value: C, sense: ObjectiveSense) -> (r: C)
    ensures
        sense is Minimize ==> r == value.neg_spec(),
        sense is Maximize ==> r == value,
{
    if matches!(sense, ObjectiveSense::Minimize) {
        value.negated()
    } else {
        value
    }
}

/// Negates an optional coefficient.
pub open spec fn negated_opt<C: Coeff>(c: Option<C>) -> Option<C> {
    match c {
        None => None,
        Some(a) => Some(a.neg_spec()),
    }
}

/// Whether `id` is a standard key that mapping record `m` writes to.
pub open spec fn maps_to<C: Coeff>(m: VariableMapping<C>, id: int) -> bool {
    match m {
        VariableMapping::Positive { var, .. } => var.key_id() == id,
        VariableMapping::Negative { var, .. } => var.key_id() == id,
        VariableMapping::Split { pos, neg } => pos.key_id() == id || neg.key_id() == id,
    }
}

/// Mapping records write to pairwise disjoint standard keys, and a split
/// record's two parts differ: what fresh standard variables guarantee.
pub open spec fn mappings_disjoint<C: Coeff>(ms: Seq<VariableMapping<C>>) -> bool {
    &&& forall|i: int, j: int, id: int|
        #![trigger maps_to(ms[i], id), maps_to(ms[j], id)]
        0 <= i < ms.len() && 0 <= j < ms.len() && i != j ==> !(maps_to(ms[i], id) && maps_to(
            ms[j],
            id,
        ))
    &&& forall|i: int|
        0 <= i < ms.len() ==> ((#[trigger] ms[i]) matches VariableMapping::Split { pos, neg }
            ==> pos.key_id() != neg.key_id())
}

/// The constant accumulated while substituting: the expression's own
/// constant plus, term by term in order, each coefficient times the shift
/// of its variable's record.
pub open spec fn substitution_constant<C: Coeff>(
    expr: Seq<(VariableKey, C)>,
    ms: Seq<VariableMapping<C>>,
    base: C,
) -> C
    decreases expr.len(),
{
    if expr.len() == 0 {
        base
    } else {
        let prev = substitution_constant(expr.drop_last(), ms, base);
        let t = expr.last();
        match ms[t.0.index as int] {
            VariableMapping::Positive { var: _, shift } => prev.add_spec(t.1.mul_spec(shift)),
            VariableMapping::Negative { var: _, shift } => prev.add_spec(t.1.mul_spec(shift)),
            VariableMapping::Split { .. } => prev,
        }
    }
}

/// What one substituted term leaves in the output: its coefficient on the
/// record's standard variable, negated on a mirrored part.
pub open spec fn applied_term<C: Coeff>(
    m: VariableMapping<C>,
    c: C,
    out: Seq<(StandardVariableKey, C)>,
) -> bool {
    match m {
        VariableMapping::Positive { var, .. } => coeff_of(out, var.key_id()) == Some(c),
        VariableMapping::Negative { var, .. } => coeff_of(out, var.key_id()) == Some(c.neg_spec()),
        VariableMapping::Split { pos, neg } => coeff_of(out, pos.key_id()) == Some(c) && coeff_of(
            out,
            neg.key_id(),
        ) == Some(c.neg_spec()),
    }
}

/// Rewrites a model expression over standard variables: each term lands
/// on the standard variables of its record (negated for the mirrored
/// part), and the shifts of the records accumulate into the constant.
pub fn substitute_mappings<C: Coeff>(
    expr: &LinearExpr<VariableKey, C>,
    mappings: &Vec<VariableMapping<C>>,
) -> (r: LinearExpr<StandardVariableKey, C>)
    requires
        expr.wf(),
        forall|p: int|
            0 <= p < expr@.len() ==> (#[trigger] expr@[p]).0.index < mappings@.len(),
        mappings_disjoint(mappings@),
    ensures
        r.wf(),
        r.spec_constant() == substitution_constant(expr@, mappings@, expr.spec_constant()),
        forall|p: int|
            0 <= p < expr@.len() ==> match mappings@[(#[trigger] expr@[p]).0.index as int] {
                VariableMapping::Positive { var, .. } => coeff_of(r@, var.key_id()) == Some(
                    expr@[p].1,
                ),
                VariableMapping::Negative { var, .. } => coeff_of(r@, var.key_id()) == Some(
                    expr@[p].1.neg_spec(),
                ),
                VariableMapping::Split { pos, neg } => coeff_of(r@, pos.key_id()) == Some(
                    expr@[p].1,
                ) && coeff_of(r@, neg.key_id()) == Some(expr@[p].1.neg_spec()),
            },
        forall|id: int|
            #[trigger] coeff_of(r@, id) is Some ==> exists|p: int|
                0 <= p < expr@.len() && maps_to(mappings@[(#[trigger] expr@[p]).0.index as int], id),
        forall|i: int|
            0 <= i < mappings@.len() ==> match #[trigger] mappings@[i] {
                VariableMapping::Positive { var, .. } => coeff_of(r@, var.key_id()) == coeff_of(
                    expr@,
                    i,
                ),
                VariableMapping::Negative { var, .. } => coeff_of(r@, var.key_id()) == negated_opt(
                    coeff_of(expr@, i),
                ),
                VariableMapping::Split { pos, neg } => coeff_of(r@, pos.key_id()) == coeff_of(
                    expr@,
                    i,
                ) && coeff_of(r@, neg.key_id()) == negated_opt(coeff_of(expr@, i)),
            },
{
    let ghost ev = expr@;
    let ghost ms = mappings@;
    let m_len = mappings.len();
    let mut out: LinearExpr<StandardVariableKey, C> = LinearExpr::new();
    let mut acc = expr.get_constant();
    let n = expr.num_terms();
    let mut p: usize = 0;
    proof {
        assert(ev.take(0) =~= Seq::<(VariableKey, C)>::empty());
    }
    while p < n
        invariant
            expr@ == ev,
            mappings@ == ms,
            n == ev.len(),
            p <= n,
            expr.wf(),
            forall|q: int| 0 <= q < ev.len() ==> (#[trigger] ev[q]).0.index < ms.len(),
            mappings_disjoint(ms),
            m_len == ms.len(),
            out.wf(),
            acc == substitution_constant(ev.take(p as int), ms, expr.spec_constant()),
            forall|q: int|
                0 <= q < p ==> match ms[(#[trigger] ev[q]).0.index as int] {
                    VariableMapping::Positive { var, .. } => coeff_of(out@, var.key_id()) == Some(
                        ev[q].1,
                    ),
                    VariableMapping::Negative { var, .. } => coeff_of(out@, var.key_id()) == Some(
                        ev[q].1.neg_spec(),
                    ),
                    VariableMapping::Split { pos, neg } => coeff_of(out@, pos.key_id()) == Some(
                        ev[q].1,
                    ) && coeff_of(out@, neg.key_id()) == Some(ev[q].1.neg_spec()),
                },
            forall|id: int|
                #[trigger] coeff_of(out@, id) is Some ==> exists|q: int|
                    0 <= q < p && maps_to(ms[(#[trigger] ev[q]).0.index as int], id),
        decreases n - p,
    {
        let t = expr.term_at(p);
        let ghost before = out@;
        proof {
            assert(ev[p as int].0.index < ms.len());
            C::neg_significance(t.1);
            assert(ev.take(p + 1).drop_last() =~= ev.take(p as int));
            assert(ev.take(p + 1).last() == ev[p as int]);
            assert forall|id: int|
                maps_to(ms[t.0.index as int], id) implies coeff_of(before, id) is None by {
                if coeff_of(before, id) is Some {
                    let q = choose|q: int|
                        0 <= q < p && maps_to(ms[(#[trigger] ev[q]).0.index as int], id);
                    assert(ev[q].0.index != t.0.index);
                }
            }
        }
        match mappings[t.0.index as usize] {
            VariableMapping::Positive { var, shift } => {
                proof {
                    assert(ms[t.0.index as int] == VariableMapping::Positive::<C> { var, shift });
                    assert(!ev[p as int].1.negligible());
                }
                out.add_term(var, t.1);
                acc = acc.plus(t.1.times(shift));
                proof {
                    assert(acc == substitution_constant(ev.take(p + 1), ms, expr.spec_constant()));
                    assert(maps_to(ms[t.0.index as int], var.key_id()));
                    assert(coeff_of(before, var.key_id()) is None);
                    assert(applied_term(ms[t.0.index as int], t.1, out@));
                    assert(forall|id: int|
                        !maps_to(ms[t.0.index as int], id) ==> #[trigger] coeff_of(out@, id)
                            == coeff_of(before, id));
                }
            },
            VariableMapping::Negative { var, shift } => {
                proof {
                    assert(ms[t.0.index as int] == VariableMapping::Negative::<C> { var, shift });
                    assert(!ev[p as int].1.negligible());
                }
                out.add_term(var, t.1.negated());
                acc = acc.plus(t.1.times(shift));
                proof {
                    assert(acc == substitution_constant(ev.take(p + 1), ms, expr.spec_constant()));
                    assert(maps_to(ms[t.0.index as int], var.key_id()));
                    assert(coeff_of(before, var.key_id()) is None);
                    assert(applied_term(ms[t.0.index as int], t.1, out@));
                    assert(forall|id: int|
                        !maps_to(ms[t.0.index as int], id) ==> #[trigger] coeff_of(out@, id)
                            == coeff_of(before, id));
                }
            },
            VariableMapping::Split { pos, neg } => {
                proof {
                    assert(ms[t.0.index as int] == VariableMapping::Split::<C> { pos, neg });
                    assert(!ev[p as int].1.negligible());
                }
                out.add_term(pos, t.1);
                let ghost mid = out@;
                out.add_term(neg, t.1.negated());
                proof {
                    assert(acc == substitution_constant(ev.take(p + 1), ms, expr.spec_constant()));
                    assert(maps_to(ms[t.0.index as int], pos.key_id()));
                    assert(maps_to(ms[t.0.index as int], neg.key_id()));
                    assert(coeff_of(before, pos.key_id()) is None);
                    assert(coeff_of(before, neg.key_id()) is None);
                    assert(pos.key_id() != neg.key_id());
                    assert(coeff_of(mid, pos.key_id()) == Some(t.1));
                    assert(coeff_of(mid, neg.key_id()) is None);
                    assert(applied_term(ms[t.0.index as int], t.1, out@));
                    assert(forall|id: int|
                        !maps_to(ms[t.0.index as int], id) ==> #[trigger] coeff_of(out@, id)
                            == coeff_of(before, id));
                }
            },
        }
        proof {
            assert forall|q: int|
                0 <= q < p + 1 implies match ms[(#[trigger] ev[q]).0.index as int] {
                VariableMapping::Positive { var, .. } => coeff_of(out@, var.key_id()) == Some(
                    ev[q].1,
                ),
                VariableMapping::Negative { var, .. } => coeff_of(out@, var.key_id()) == Some(
                    ev[q].1.neg_spec(),
                ),
                VariableMapping::Split { pos, neg } => coeff_of(out@, pos.key_id()) == Some(
                    ev[q].1,
                ) && coeff_of(out@, neg.key_id()) == Some(ev[q].1.neg_spec()),
            } by {
                if q < p {
                    assert(ev[q].0.index != t.0.index);
                    match ms[ev[q].0.index as int] {
                        VariableMapping::Positive { var, .. } => {
                            assert(maps_to(ms[ev[q].0.index as int], var.key_id()));
                            assert(!maps_to(ms[t.0.index as int], var.key_id()));
                            assert(coeff_of(out@, var.key_id()) == coeff_of(before, var.key_id()));
                        },
                        VariableMapping::Negative { var, .. } => {
                            assert(maps_to(ms[ev[q].0.index as int], var.key_id()));
                            assert(!maps_to(ms[t.0.index as int], var.key_id()));
                            assert(coeff_of(out@, var.key_id()) == coeff_of(before, var.key_id()));
                        },
                        VariableMapping::Split { pos, neg } => {
                            assert(maps_to(ms[ev[q].0.index as int], pos.key_id()));
                            assert(!maps_to(ms[t.0.index as int], pos.key_id()));
                            assert(coeff_of(out@, pos.key_id()) == coeff_of(before, pos.key_id()));
                            assert(maps_to(ms[ev[q].0.index as int], neg.key_id()));
                            assert(!maps_to(ms[t.0.index as int], neg.key_id()));
                            assert(coeff_of(out@, neg.key_id()) == coeff_of(before, neg.key_id()));
                        },
                    }
                } else {
                    assert(applied_term(ms[ev[q].0.index as int], ev[q].1, out@));
                }
            }
        }
        p = p + 1;
    }
    proof {
        assert(ev.take(n as int) =~= ev);
    }
    out.set_constant(acc);
    proof {
        assert forall|i: int| 0 <= i < ms.len() implies match #[trigger] ms[i] {
            VariableMapping::Positive { var, .. } => coeff_of(out@, var.key_id()) == coeff_of(
                ev,
                i,
            ),
            VariableMapping::Negative { var, .. } => coeff_of(out@, var.key_id()) == negated_opt(
                coeff_of(ev, i),
            ),
            VariableMapping::Split { pos, neg } => coeff_of(out@, pos.key_id()) == coeff_of(
                ev,
                i,
            ) && coeff_of(out@, neg.key_id()) == negated_opt(coeff_of(ev, i)),
        } by {
            if exists|p: int| 0 <= p < ev.len() && (#[trigger] ev[p]).0.key_id() == i {
                let p = choose|p: int| 0 <= p < ev.len() && (#[trigger] ev[p]).0.key_id() == i;
                crate::expression::lemma_coeff_of_present(ev, p);
            } else {
                assert forall|p: int|
                    0 <= p < ev.len() implies (#[trigger] ev[p]).0.key_id() != i by {}
                crate::expression::lemma_coeff_of_absent(ev, i);
                match ms[i] {
                    VariableMapping::Positive { var, .. } => {
                        lemma_untargeted_key_none(ev, ms, out@, i, var.key_id());
                    },
                    VariableMapping::Negative { var, .. } => {
                        lemma_untargeted_key_none(ev, ms, out@, i, var.key_id());
                    },
                    VariableMapping::Split { pos, neg } => {
                        lemma_untargeted_key_none(ev, ms, out@, i, pos.key_id());
                        lemma_untargeted_key_none(ev, ms, out@, i, neg.key_id());
                    },
                }
            }
        }
    }
    out
}

/// If no term of `ev` carries the domain key `i`, then no coefficient
/// lands on a standard key that record `i` writes to.
proof fn lemma_untargeted_key_none<C: Coeff>(
    ev: Seq<(VariableKey, C)>,
    ms: Seq<VariableMapping<C>>,
    out: Seq<(StandardVariableKey, C)>,
    i: int,
    target: int,
)
    requires
        0 <= i < ms.len(),
        mappings_disjoint(ms),
        maps_to(ms[i], target),
        forall|p: int| 0 <= p < ev.len() ==> (#[trigger] ev[p]).0.key_id() != i,
        forall|p: int| 0 <= p < ev.len() ==> (#[trigger] ev[p]).0.index < ms.len(),
        forall|id: int|
            #[trigger] coeff_of(out, id) is Some ==> exists|p: int|
                0 <= p < ev.len() && maps_to(ms[(#[trigger] ev[p]).0.index as int], id),
    ensures
        coeff_of(out, target) is None,
{
    if coeff_of(out, target) is Some {
        let p = choose|p: int|
            0 <= p < ev.len() && maps_to(ms[(#[trigger] ev[p]).0.index as int], target);
        assert(maps_to(ms[ev[p].0.index as int], target));
        assert(ev[p].0.index as int == i);
        assert(false);
    }
}

/// The shift a `Positive` translation applies, per its rule.
pub fn shift_amount<C: Coeff>(rule: ShiftRule, lb: C) -> (r: C)
    ensures
        rule is NoShift ==> r == C::zero_spec(),
        rule is ByLowerBound ==> r == lb,
{
    match rule {
        ShiftRule::NoShift => C::zero(),
        ShiftRule::ByLowerBound => lb,
    }
}

/// The bound of the upper-bound row a translation emits, per its rule:
/// `1` for the binary relaxation, `ub`, `−lb`, or `ub − lb`.
pub fn bound_row_amount<C: Coeff>(rule: UpperRowRule, lb: C, ub: C) -> (r: Option<C>)
    ensures
        rule is NoRow ==> r is None,
        rule is RowOne ==> r == Some(C::one_spec()),
        rule is RowUpperBound ==> r == Some(ub),
        rule is RowNegatedLowerBound ==> r == Some(lb.neg_spec()),
        rule is RowUpperMinusLower ==> r == Some(ub.add_spec(lb.neg_spec())),
{
    match rule {
        UpperRowRule::NoRow => None,
        UpperRowRule::RowOne => Some(C::one()),
        UpperRowRule::RowUpperBound => Some(ub),
        UpperRowRule::RowNegatedLowerBound => Some(lb.negated()),
        UpperRowRule::RowUpperMinusLower => Some(ub.plus(lb.negated())),
    }
}

/// The dictionary row of the bound constraint `s ≤ amount` on one
/// standard variable: constant `amount`, coefficient −1 on `s`.
pub fn bound_row<C: Coeff>(var: StandardVariableKey, amount: C) -> (r: LinearExpr<
    DictionaryVariable,
    C,
>)
    ensures
        r.wf(),
        non_slack_terms(r@),
        r.spec_constant() == amount,
        coeff_of(r@, DictionaryVariable::NonSlack(var).key_id()) == Some(
            C::one_spec().neg_spec(),
        ),
        forall|id: int|
            id != DictionaryVariable::NonSlack(var).key_id() ==> coeff_of(r@, id) is None,
{
    proof {
        C::one_significance();
        C::neg_significance(C::one_spec());
    }
    let mut r: LinearExpr<DictionaryVariable, C> = LinearExpr::with_constant(amount);
    r.add_term(DictionaryVariable::new_non_slack(var), C::one().negated());
    proof {
        assert forall|p: int| 0 <= p < r@.len() implies (#[trigger] r@[p].0) is NonSlack by {
            crate::expression::lemma_coeff_of_present(r@, p);
            assert(coeff_of(r@, r@[p].0.key_id()) is Some);
        }
    }
    r
}

/// That `row` is the dictionary form of the standard row `e₀ ≤ −k`, where
/// `e₀` is `e` with its constant `k` zeroed: constant `−k` and every
/// coefficient negated, keys lifted to their non-slack dictionary
/// variables.
pub open spec fn plain_dictionary_row<C: Coeff>(
    e: LinearExpr<StandardVariableKey, C>,
    row: LinearExpr<DictionaryVariable, C>,
) -> bool {
    &&& row.spec_constant() == e.spec_constant().neg_spec()
    &&& forall|i: int|
        0 <= i < e@.len() ==> coeff_of(
            row@,
            DictionaryVariable::NonSlack((#[trigger] e@[i]).0).key_id(),
        ) == Some(e@[i].1.neg_spec())
    &&& forall|id: int|
        #[trigger] coeff_of(row@, id) is Some ==> exists|i: int|
            0 <= i < e@.len() && DictionaryVariable::NonSlack((#[trigger] e@[i]).0).key_id() == id
}

/// That `row` is the dictionary form of the mirrored standard row
/// `−e₀ ≤ k`: constant `−(−k)` and the coefficients as they stand in `e`.
pub open spec fn negated_dictionary_row<C: Coeff>(
    e: LinearExpr<StandardVariableKey, C>,
    row: LinearExpr<DictionaryVariable, C>,
) -> bool {
    &&& row.spec_constant() == e.spec_constant().neg_spec().neg_spec()
    &&& forall|i: int|
        0 <= i < e@.len() ==> coeff_of(
            row@,
            DictionaryVariable::NonSlack((#[trigger] e@[i]).0).key_id(),
        ) == Some(e@[i].1)
    &&& forall|id: int|
        #[trigger] coeff_of(row@, id) is Some ==> exists|i: int|
            0 <= i < e@.len() && DictionaryVariable::NonSlack((#[trigger] e@[i]).0).key_id() == id
}

/// Builds the dictionary rows a constraint emits from its substituted
/// difference `e` (over standard variables, constant `k`): with `b := −k`,
/// the plain row `b − e₀` for ≤ and =, and the mirrored row `−b + e₀`
/// for ≥ and =.
pub fn constraint_dictionary_rows<C: Coeff>(
    e: &LinearExpr<StandardVariableKey, C>,
    sense: ConstraintSense,
) -> (r: Vec<LinearExpr<DictionaryVariable, C>>)
    requires
        e.wf(),
    ensures
        r@.len() == if sense is Equal {
            2int
        } else {
            1int
        },
        forall|q: int|
            0 <= q < r@.len() ==> (#[trigger] r@[q]).wf() && non_slack_terms(r@[q]@),
        sense is LessEqual || sense is Equal ==> plain_dictionary_row(*e, r@[0]),
        sense is GreaterEqual ==> negated_dictionary_row(*e, r@[0]),
        sense is Equal ==> negated_dictionary_row(*e, r@[1]),
{
    let b = e.get_constant().negated();
    let mut r: Vec<LinearExpr<DictionaryVariable, C>> = Vec::new();
    if emits_plain_row(sense) {
        r.push(lift_row(e, b, true));
    }
    if emits_negated_row(sense) {
        r.push(lift_row(e, b.negated(), false));
    }
    r
}

/// Transports the standard objective into the dictionary universe
/// verbatim: same constant, same coefficients, keys lifted to their
/// non-slack dictionary variables.
pub fn objective_dictionary_expr<C: Coeff>(e: &LinearExpr<StandardVariableKey, C>) -> (row:
    LinearExpr<DictionaryVariable, C>)
    requires
        e.wf(),
    ensures
        row.wf(),
        non_slack_terms(row@),
        row.spec_constant() == e.spec_constant(),
        forall|i: int|
            0 <= i < e@.len() ==> coeff_of(
                row@,
                DictionaryVariable::NonSlack((#[trigger] e@[i]).0).key_id(),
            ) == Some(e@[i].1),
        forall|id: int|
            #[trigger] coeff_of(row@, id) is Some ==> exists|i: int|
                0 <= i < e@.len() && DictionaryVariable::NonSlack((#[trigger] e@[i]).0).key_id()
                    == id,
{
    let constant = e.get_constant();
    lift_row(e, constant, false)
}

/// Lifts the terms of `e` into the dictionary universe onto the constant
/// `constant`, negating each coefficient when `negate` is set.
fn lift_row<C: Coeff>(
    e: &LinearExpr<StandardVariableKey, C>,
    constant: C,
    negate: bool,
) -> (row: LinearExpr<DictionaryVariable, C>)
    requires
        e.wf(),
    ensures
        row.wf(),
        non_slack_terms(row@),
        row.spec_constant() == constant,
        forall|i: int|
            0 <= i < e@.len() ==> coeff_of(
                row@,
                DictionaryVariable::NonSlack((#[trigger] e@[i]).0).key_id(),
            ) == Some(
                if negate {
                    e@[i].1.neg_spec()
                } else {
                    e@[i].1
                },
            ),
        forall|id: int|
            #[trigger] coeff_of(row@, id) is Some ==> exists|i: int|
                0 <= i < e@.len() && DictionaryVariable::NonSlack((#[trigger] e@[i]).0).key_id()
                    == id,
{
    let mut row: LinearExpr<DictionaryVariable, C> = LinearExpr::with_constant(constant);
    let n = e.num_terms();
    let mut i: usize = 0;
    while i < n
        invariant
            n == e@.len(),
            i <= n,
            e.wf(),
            row.wf(),
            non_slack_terms(row@),
            row.spec_constant() == constant,
            forall|p: int|
                0 <= p < i ==> coeff_of(
                    row@,
                    DictionaryVariable::NonSlack((#[trigger] e@[p]).0).key_id(),
                ) == Some(
                    if negate {
                        e@[p].1.neg_spec()
                    } else {
                        e@[p].1
                    },
                ),
            forall|id: int|
                #[trigger] coeff_of(row@, id) is Some ==> exists|p: int|
                    0 <= p < i && DictionaryVariable::NonSlack((#[trigger] e@[p]).0).key_id()
                        == id,
        decreases n - i,
    {
        let t = e.term_at(i);
        let target = DictionaryVariable::new_non_slack(t.0);
        let coefficient = if negate {
            t.1.negated()
        } else {
            t.1
        };
        let ghost before = row@;
        proof {
            C::neg_significance(t.1);
            assert(!e@[i as int].1.negligible());
            if coeff_of(before, target.key_id()) is Some {
                let p = choose|p: int|
                    0 <= p < i && DictionaryVariable::NonSlack((#[trigger] e@[p]).0).key_id()
                        == target.key_id();
                assert(e@[p].0.key_id() == e@[i as int].0.key_id());
                assert(false);
            }
        }
        row.add_term(target, coefficient);
        proof {
            assert(coeff_of(row@, target.key_id()) == Some(coefficient));
            assert forall|id: int| #[trigger] coeff_of(row@, id) is Some implies exists|p: int|
                0 <= p < i + 1 && DictionaryVariable::NonSlack((#[trigger] e@[p]).0).key_id()
                    == id by {
                if id != target.key_id() {
                    assert(coeff_of(before, id) is Some);
                }
            }
            assert forall|p: int| 0 <= p < row@.len() implies (#[trigger] row@[p].0)
                is NonSlack by {
                if !(row@[p].0 is NonSlack) {
                    crate::expression::lemma_coeff_of_present(row@, p);
                    assert(coeff_of(row@, row@[p].0.key_id()) is Some);
                }
            }
        }
        i = i + 1;
    }
    row
}

} // verus!
