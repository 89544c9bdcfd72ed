use vstd::prelude::*;
use crate::dict_variable::DictionaryVariable;
use crate::dictionary::{non_slack_terms, SlackDictionary};
use crate::driver::{phase_one_outcome, step_decision, PhaseOneOutcome, StepDecision};
use crate::expression::{coeff_of, Coeff, ExprVariable, LinearExpr};
use crate::keys::StandardVariableKey;
use crate::status::SolverStatus;

verus! {

/// Iteration budget and working tolerance of a solve.
#[derive(Debug, Clone, Copy)]
pub struct SolverConfig<C: Coeff> {
    pub max_iterations: u32,
    pub tolerance: C,
}

impl<C: Coeff> SolverConfig<C> {
    pub fn new(max_iterations: u32, tolerance: C) -> (r: Self)
        ensures
            r.max_iterations == max_iterations,
            r.tolerance == tolerance,
    {
        SolverConfig { max_iterations, tolerance }
    }
}

/// The outcome of a solve over standard variables: terminal status,
/// objective value, the values of the standard variables that ended up
/// basic, and the iteration count. Variables not listed are non-basic and
/// take the value zero.
pub struct SolverSolution<C: Coeff> {
    pub status: SolverStatus,
    pub objective_value: Option<C>,
    pub variable_values: Option<Vec<(StandardVariableKey, C)>>,
    pub iterations: u32,
}

impl<C: Coeff> SolverSolution<C> {
    /// Whether the listed values carry each variable at most once; the
    /// solver always reports values this way.
    pub open spec fn keys_unique(self) -> bool {
        self.variable_values matches Some(vals) ==> distinct_keys(vals@)
    }

    /// The value the solution reports for `var`: its listed value if
    /// present, zero otherwise.
    pub open spec fn spec_value(self, var: StandardVariableKey) -> C {
        match self.variable_values {
            Some(vals) => if exists|i: int|
                0 <= i < vals@.len() && (#[trigger] vals@[i]).0 == var {
                vals@[choose|i: int| 0 <= i < vals@.len() && (#[trigger] vals@[i]).0 == var].1
            } else {
                C::zero_spec()
            },
            None => C::zero_spec(),
        }
    }

    /// The reported value of a standard variable: its listed value if it
    /// ended up basic, zero otherwise.
    pub fn value(&self, var: StandardVariableKey) -> (r: C)
        ensures
            self.keys_unique() ==> r == self.spec_value(var),
            self.variable_values is Some ==> {
                if exists|i: int|
                    0 <= i < self.variable_values->Some_0@.len() && (
                    #[trigger] self.variable_values->Some_0@[i]).0 == var {
                    exists|i: int|
                        0 <= i < self.variable_values->Some_0@.len() && (
                        #[trigger] self.variable_values->Some_0@[i]).0 == var && r
                            == self.variable_values->Some_0@[i].1
                } else {
                    r == C::zero_spec()
                }
            },
            self.variable_values is None ==> r == C::zero_spec(),
    {
        if self.variable_values.is_none() {
            return C::zero();
        }
        let vals = self.variable_values.as_ref().unwrap();
        let n = vals.len();
        let mut i: usize = 0;
        while i < n
            invariant
                self.variable_values is Some,
                vals@ == self.variable_values->Some_0@,
                n == vals@.len(),
                i <= n,
                forall|k: int| 0 <= k < i ==> (#[trigger] vals@[k]).0 != var,
            decreases n - i,
        {
            if vals[i].0.index == var.index {
                proof {
                    assert(vals@[i as int].0 == var);
                    if self.keys_unique() {
                        let j = choose|j: int|
                            0 <= j < vals@.len() && (#[trigger] vals@[j]).0 == var;
                        if j != i {
                            assert(vals@[j].0 == vals@[i as int].0);
                        }
                    }
                }
                return vals[i].1;
            }
            i = i + 1;
        }
        C::zero()
    }
}

/// Whether the objective term at position `i` makes its variable an
/// entering candidate: its coefficient exceeds the tolerance.
pub open spec fn entering_candidate<C: Coeff>(
    obj: Seq<(DictionaryVariable, C)>,
    tolerance: C,
    i: int,
) -> bool {
    tolerance.lt_spec(obj[i].1)
}

/// That `v` is a valid result of entering selection: it stands in the
/// objective with a coefficient above the tolerance, no candidate
/// coefficient exceeds its own, and among candidates whose coefficients
/// tie with it, its kind rank is maximal.
pub open spec fn entering_choice<C: Coeff>(
    obj: Seq<(DictionaryVariable, C)>,
    tolerance: C,
    v: DictionaryVariable,
) -> bool {
    exists|i: int|
        0 <= i < obj.len() && (#[trigger] obj[i].0) == v && entering_candidate(obj, tolerance, i)
            && (forall|j: int|
            0 <= j < obj.len() && entering_candidate(obj, tolerance, j) ==> !obj[i].1.lt_spec(
                #[trigger] obj[j].1,
            ) && (!obj[j].1.lt_spec(obj[i].1) ==> obj[j].0.rank_spec() <= obj[i].0.rank_spec()))
}

/// Whether row `r` can serve as the leaving row for `entering`: it
/// carries a coefficient for the entering variable below the negated
/// tolerance.
pub open spec fn leaving_candidate<C: Coeff>(
    dict: SlackDictionary<C>,
    entering_id: int,
    tolerance: C,
    r: int,
) -> bool {
    coeff_of(dict.rows_view()[r].expr@, entering_id) matches Some(c) && c.lt_spec(
        tolerance.neg_spec(),
    )
}

/// A value lies strictly outside the symmetric tolerance band: how the
/// auxiliary optimum is judged against the configured tolerance.
pub open spec fn outside_tolerance<C: Coeff>(x: C, tolerance: C) -> bool {
    x.lt_spec(tolerance.neg_spec()) || tolerance.lt_spec(x)
}

/// No row can serve as the leaving row for the variable with key
/// `entering_id`: the unboundedness evidence in that direction.
pub open spec fn no_leaving_row<C: Coeff>(
    dict: SlackDictionary<C>,
    entering_id: int,
    tolerance: C,
) -> bool {
    forall|k: int|
        0 <= k < dict.rows_view().len() ==> !leaving_candidate(dict, entering_id, tolerance, k)
}

/// That `row` holds a minimal row constant: no row constant lies below
/// it. The forced first leaving row of Phase 1.
pub open spec fn most_negative_row<C: Coeff>(dict: SlackDictionary<C>, row: int) -> bool {
    &&& 0 <= row < dict.rows_view().len()
    &&& forall|k: int|
        0 <= k < dict.rows_view().len() ==> !(#[trigger] dict.rows_view()[k]).expr.spec_constant()
            .lt_spec(dict.rows_view()[row].expr.spec_constant())
}

/// That `row` is a valid result of leaving selection for the variable
/// with key `entering_id`: a leaving candidate of maximal
/// constant-to-coefficient ratio, kind ranks breaking ratio ties.
pub open spec fn leaving_choice<C: Coeff>(
    dict: SlackDictionary<C>,
    entering_id: int,
    tolerance: C,
    row: int,
) -> bool {
    &&& 0 <= row < dict.rows_view().len()
    &&& leaving_candidate(dict, entering_id, tolerance, row)
    &&& forall|j: int|
        0 <= j < dict.rows_view().len() && leaving_candidate(dict, entering_id, tolerance, j)
            ==> !leaving_ratio(dict, entering_id, row).lt_spec(
            #[trigger] leaving_ratio(dict, entering_id, j),
        ) && (!leaving_ratio(dict, entering_id, j).lt_spec(leaving_ratio(dict, entering_id, row))
            ==> dict.rows_view()[j].basic.rank_spec() <= dict.rows_view()[row].basic.rank_spec())
}

/// Witness that the objective is unbounded in the direction of `v`: a
/// valid entering choice whose column has no leaving row.
pub open spec fn unbounded_outcome<C: Coeff>(
    dict: SlackDictionary<C>,
    tolerance: C,
    v: DictionaryVariable,
) -> bool {
    entering_choice(dict.objective_view()@, tolerance, v) && no_leaving_row(
        dict,
        v.key_id(),
        tolerance,
    )
}

/// One rule-conforming simplex step: some entering choice and leaving
/// choice per the selection rules, carried out by the pivot rewrite.
pub open spec fn rule_conforming_pivot<C: Coeff>(
    pre: SlackDictionary<C>,
    post: SlackDictionary<C>,
    tolerance: C,
) -> bool {
    exists|v: DictionaryVariable, row: int|
        #![trigger crate::dictionary::pivot_relation(pre, post, v, row)]
        entering_choice(pre.objective_view()@, tolerance, v) && leaving_choice(
            pre,
            v.key_id(),
            tolerance,
            row,
        ) && crate::dictionary::pivot_relation(pre, post, v, row)
}

/// A run of the simplex loop: `steps` rule-conforming pivots lead from
/// `start_dict` to `end_dict`, witnessed by the chain of dictionaries.
pub open spec fn solver_run<C: Coeff>(
    start_dict: SlackDictionary<C>,
    end_dict: SlackDictionary<C>,
    tolerance: C,
    steps: int,
    trace: Seq<SlackDictionary<C>>,
) -> bool {
    &&& steps >= 0
    &&& trace.len() == steps + 1
    &&& trace[0] == start_dict
    &&& trace[steps] == end_dict
    &&& forall|i: int|
        0 <= i < steps ==> rule_conforming_pivot(#[trigger] trace[i], trace[i + 1], tolerance)
}

/// The ratio a leaving candidate row offers: its constant divided by the
/// (negative) coefficient of the entering variable.
pub open spec fn leaving_ratio<C: Coeff>(dict: SlackDictionary<C>, entering_id: int, r: int) -> C {
    dict.rows_view()[r].expr.spec_constant().div_spec(
        coeff_of(dict.rows_view()[r].expr@, entering_id)->Some_0,
    )
}

/// A dictionary ready for a fresh solve: well-formed, every basic a slack
/// variable, and no slack or auxiliary variable on any right-hand side or
/// in the objective.
pub open spec fn ready_dictionary<C: Coeff>(dict: SlackDictionary<C>) -> bool {
    &&& dict.wf()
    &&& forall|r: int|
        0 <= r < dict.rows_view().len() ==> (#[trigger] dict.rows_view()[r]).basic is Slack
    &&& forall|r: int|
        0 <= r < dict.rows_view().len() ==> non_slack_terms(
            (#[trigger] dict.rows_view()[r]).expr@,
        )
    &&& non_slack_terms(dict.objective_view()@)
}

/// No trace of the auxiliary variable: it is not basic anywhere and
/// appears in no row expression and not in the objective. This holds
/// before Phase 1 begins and again from the Phase 2 preparation on: the
/// auxiliary variable is alive only during Phase 1.
pub open spec fn aux_free<C: Coeff>(dict: SlackDictionary<C>) -> bool {
    &&& forall|r: int|
        0 <= r < dict.rows_view().len() ==> !((#[trigger] dict.rows_view()[r]).basic is Auxiliary)
    &&& forall|r: int|
        0 <= r < dict.rows_view().len() ==> coeff_of(
            (#[trigger] dict.rows_view()[r]).expr@,
            DictionaryVariable::Auxiliary.key_id(),
        ) is None
    &&& coeff_of(dict.objective_view()@, DictionaryVariable::Auxiliary.key_id()) is None
}

/// A dictionary ready for a fresh solve has no trace of the auxiliary
/// variable.
proof fn lemma_ready_is_aux_free<C: Coeff>(dict: SlackDictionary<C>)
    requires
        ready_dictionary(dict),
    ensures
        aux_free(dict),
{
    let aux = DictionaryVariable::Auxiliary;
    assert forall|r: int| 0 <= r < dict.rows_view().len() implies coeff_of(
        (#[trigger] dict.rows_view()[r]).expr@,
        aux.key_id(),
    ) is None by {
        crate::dictionary::lemma_non_slack_key_absent(dict.rows_view()[r].expr@, aux);
    }
    crate::dictionary::lemma_non_slack_key_absent(dict.objective_view()@, aux);
}

/// A pivot on a non-auxiliary entering variable keeps the dictionary free
/// of the auxiliary variable.
proof fn lemma_pivot_preserves_aux_free<C: Coeff>(
    pre: SlackDictionary<C>,
    post: SlackDictionary<C>,
    entering: DictionaryVariable,
    row_idx: int,
)
    requires
        aux_free(pre),
        !(entering is Auxiliary),
        0 <= row_idx < pre.rows_view().len(),
        post.rows_view().len() == pre.rows_view().len(),
        post.rows_view()[row_idx].basic == entering,
        forall|r: int|
            0 <= r < pre.rows_view().len() && r != row_idx ==> (#[trigger] post.rows_view()[r]).basic
                == pre.rows_view()[r].basic,
        forall|id: int|
            #[trigger] coeff_of(post.rows_view()[row_idx].expr@, id) == crate::dictionary::pivoted_coeff(
                pre.rows_view()[row_idx].expr@,
                pre.rows_view()[row_idx].basic,
                entering.key_id(),
                id,
            ),
        forall|r: int, id: int|
            0 <= r < pre.rows_view().len() && r != row_idx ==> #[trigger] coeff_of(
                post.rows_view()[r].expr@,
                id,
            ) == crate::dictionary::substituted_coeff(
                pre.rows_view()[r].expr@,
                post.rows_view()[row_idx].expr@,
                entering.key_id(),
                id,
            ),
        forall|id: int|
            #[trigger] coeff_of(post.objective_view()@, id) == crate::dictionary::substituted_coeff(
                pre.objective_view()@,
                post.rows_view()[row_idx].expr@,
                entering.key_id(),
                id,
            ),
    ensures
        aux_free(post),
{
    let aux_id = DictionaryVariable::Auxiliary.key_id();
    assert(coeff_of(post.rows_view()[row_idx].expr@, aux_id) is None);
    assert forall|r: int| 0 <= r < post.rows_view().len() implies coeff_of(
        (#[trigger] post.rows_view()[r]).expr@,
        aux_id,
    ) is None by {
        if r != row_idx {
            assert(coeff_of(pre.rows_view()[r].expr@, aux_id) is None);
        }
    }
}

/// The Phase-1 setup relation: `d0` is `input` with its objective
/// replaced by `−aux` and the auxiliary variable added to every row with
/// coefficient one; nothing else changes.
pub open spec fn aux_setup<C: Coeff>(input: SlackDictionary<C>, d0: SlackDictionary<C>) -> bool {
    &&& d0.rows_view().len() == input.rows_view().len()
    &&& forall|r: int|
        0 <= r < input.rows_view().len() ==> (#[trigger] d0.rows_view()[r]).basic
            == input.rows_view()[r].basic
    &&& forall|r: int|
        0 <= r < input.rows_view().len() ==> (#[trigger] d0.rows_view()[r]).expr.spec_constant()
            == input.rows_view()[r].expr.spec_constant()
    &&& forall|r: int|
        0 <= r < input.rows_view().len() ==> coeff_of(
            (#[trigger] d0.rows_view()[r]).expr@,
            DictionaryVariable::Auxiliary.key_id(),
        ) == Some(C::one_spec())
    &&& forall|r: int, id: int|
        0 <= r < input.rows_view().len() && id != DictionaryVariable::Auxiliary.key_id()
            ==> #[trigger] coeff_of(d0.rows_view()[r].expr@, id) == coeff_of(
            input.rows_view()[r].expr@,
            id,
        )
    &&& coeff_of(d0.objective_view()@, DictionaryVariable::Auxiliary.key_id()) == Some(
        C::one_spec().neg_spec(),
    )
    &&& forall|id: int|
        id != DictionaryVariable::Auxiliary.key_id() ==> coeff_of(
            d0.objective_view()@,
            id,
        ) is None
    &&& d0.objective_view().spec_constant() == C::zero_spec()
}

/// The forced entry into Phase 1: from the auxiliary setup of `input`,
/// the auxiliary variable pivots into the basis against a row of minimal
/// constant, yielding `d1`.
pub open spec fn phase_one_entry<C: Coeff>(
    input: SlackDictionary<C>,
    d1: SlackDictionary<C>,
    tolerance: C,
) -> bool {
    exists|d0: SlackDictionary<C>, row: int|
        #![trigger crate::dictionary::pivot_relation(d0, d1, DictionaryVariable::Auxiliary, row)]
        aux_setup(input, d0) && most_negative_row(d0, row)
            && crate::dictionary::pivot_relation(d0, d1, DictionaryVariable::Auxiliary, row)
}

/// A complete Phase-1 run from `input` to `end_dict`: the auxiliary
/// setup, the forced pivot, and `iterations − 1` rule-conforming pivots.
pub open spec fn phase_one_run<C: Coeff>(
    input: SlackDictionary<C>,
    end_dict: SlackDictionary<C>,
    tolerance: C,
    iterations: int,
) -> bool {
    &&& iterations >= 1
    &&& exists|d1: SlackDictionary<C>|
        #[trigger] phase_one_entry(input, d1, tolerance) && (exists|
            trace: Seq<SlackDictionary<C>>,
        |
            #[trigger] solver_run(d1, end_dict, tolerance, iterations - 1, trace))
}

/// The auxiliary variable leaves the basis: it was not basic, or it
/// pivots out against its row, or that row is dropped as a redundant
/// equality.
pub open spec fn aux_basic_resolution<C: Coeff>(
    pre: SlackDictionary<C>,
    post: SlackDictionary<C>,
) -> bool {
    ||| (post == pre && forall|r: int|
        0 <= r < pre.rows_view().len() ==> !((#[trigger] pre.rows_view()[r]).basic is Auxiliary))
    ||| (exists|v: DictionaryVariable, row: int|
        #![trigger crate::dictionary::pivot_relation(pre, post, v, row)]
        0 <= row < pre.rows_view().len() && pre.rows_view()[row].basic is Auxiliary
            && crate::dictionary::pivot_relation(pre, post, v, row))
    ||| (exists|row: int|
        #![trigger pre.rows_view().remove(row)]
        0 <= row < pre.rows_view().len() && pre.rows_view()[row].basic is Auxiliary
            && post.rows_view() == pre.rows_view().remove(row) && post.objective_view()
            == pre.objective_view())
}

/// The auxiliary variable is removed from every row; nothing else
/// changes.
pub open spec fn aux_removal<C: Coeff>(pre: SlackDictionary<C>, post: SlackDictionary<C>) -> bool {
    &&& post.rows_view().len() == pre.rows_view().len()
    &&& post.objective_view() == pre.objective_view()
    &&& forall|r: int|
        0 <= r < pre.rows_view().len() ==> (#[trigger] post.rows_view()[r]).basic
            == pre.rows_view()[r].basic
    &&& forall|r: int|
        0 <= r < pre.rows_view().len() ==> (#[trigger] post.rows_view()[r]).expr.spec_constant()
            == pre.rows_view()[r].expr.spec_constant()
    &&& forall|r: int|
        0 <= r < pre.rows_view().len() ==> coeff_of(
            (#[trigger] post.rows_view()[r]).expr@,
            DictionaryVariable::Auxiliary.key_id(),
        ) is None
    &&& forall|r: int, id: int|
        0 <= r < pre.rows_view().len() && id != DictionaryVariable::Auxiliary.key_id()
            ==> #[trigger] coeff_of(post.rows_view()[r].expr@, id) == coeff_of(
            pre.rows_view()[r].expr@,
            id,
        )
}

/// The saved objective with every current basic of `dict` substituted
/// out, row by row in order, ends up as `installed`.
pub open spec fn objective_restored<C: Coeff>(
    dict: SlackDictionary<C>,
    saved: LinearExpr<DictionaryVariable, C>,
    installed: LinearExpr<DictionaryVariable, C>,
) -> bool {
    exists|chain: Seq<LinearExpr<DictionaryVariable, C>>|
        #![trigger chain.len()]
        chain.len() == dict.rows_view().len() + 1 && chain[0] == saved && chain[dict.rows_view().len() as int]
            == installed && (forall|i: int|
            0 <= i < dict.rows_view().len() ==> crate::expression::substitution_rewrite(
                #[trigger] chain[i],
                dict.rows_view()[i].basic,
                dict.rows_view()[i].expr,
                chain[i + 1],
            ))
}

/// The complete retirement of the auxiliary variable at the Phase-1 to
/// Phase-2 transition: the auxiliary leaves the basis, is removed from
/// every row, and the saved objective, with every remaining basic
/// substituted out, is installed.
pub open spec fn aux_retirement<C: Coeff>(
    pre: SlackDictionary<C>,
    post: SlackDictionary<C>,
    saved: LinearExpr<DictionaryVariable, C>,
) -> bool {
    exists|mid1: SlackDictionary<C>|
        #[trigger] aux_basic_resolution(pre, mid1) && (exists|mid2: SlackDictionary<C>|
            #[trigger] aux_removal(mid1, mid2) && post.rows_view() == mid2.rows_view()
                && objective_restored(mid2, saved, post.objective_view()))
}

/// A run of the simplex loop between two dictionaries, the witnessing
/// trace left implicit.
pub open spec fn chained_run<C: Coeff>(
    a: SlackDictionary<C>,
    b: SlackDictionary<C>,
    tolerance: C,
    steps: int,
) -> bool {
    exists|trace: Seq<SlackDictionary<C>>| #[trigger] solver_run(a, b, tolerance, steps, trace)
}

/// A complete two-phase solve from `input` to `end_dict`: the Phase-1
/// entry, `k1` rule-conforming pivots reaching an auxiliary optimum
/// within tolerance, the retirement of the auxiliary variable with the
/// input's own objective reinstalled, and `k2` further rule-conforming
/// pivots; `iterations` counts the forced pivot and both loops.
pub open spec fn two_phase_run<C: Coeff>(
    input: SlackDictionary<C>,
    end_dict: SlackDictionary<C>,
    tolerance: C,
    iterations: int,
) -> bool {
    exists|d1: SlackDictionary<C>|
        #[trigger] phase_one_entry(input, d1, tolerance) && (exists|
            d2: SlackDictionary<C>,
            k1: int,
        |
            #![trigger chained_run(d1, d2, tolerance, k1)]
            chained_run(d1, d2, tolerance, k1) && !outside_tolerance(
                d2.objective_view().spec_constant(),
                tolerance,
            ) && (exists|d3: SlackDictionary<C>|
                #[trigger] aux_retirement(d2, d3, input.objective_view()) && (exists|k2: int|
                    #[trigger] chained_run(d3, end_dict, tolerance, k2) && iterations == 1 + k1
                        + k2)))
}

/// The two-phase dictionary simplex driver.
///
/// Phase 1 runs only when some row constant lies below the negated
/// tolerance: the auxiliary variable is added to every row with
/// coefficient one, the objective is replaced by `−aux`, and one forced
/// pivot brings `aux` into the basis against the row with the most
/// negative constant. If the auxiliary optimum is not negligible the
/// problem is infeasible; otherwise `aux` is pivoted or dropped out of
/// the basis, removed everywhere, and the saved objective — with every
/// current basic substituted out — is reinstalled for Phase 2.
pub struct SimplexSolver<C: Coeff> {
    dict: SlackDictionary<C>,
    iterations: u32,
    config: SolverConfig<C>,
}

impl<C: Coeff> SimplexSolver<C> {
    pub closed spec fn dict_view(self) -> SlackDictionary<C> {
        self.dict
    }

    pub closed spec fn spec_iterations(self) -> u32 {
        self.iterations
    }

    pub closed spec fn spec_config(self) -> SolverConfig<C> {
        self.config
    }

    /// Wraps a ready dictionary for solving.
    pub fn new(dict: SlackDictionary<C>, config: SolverConfig<C>) -> (r: Self)
        requires
            ready_dictionary(dict),
        ensures
            r.dict_view() == dict,
            r.spec_iterations() == 0,
            r.spec_config() == config,
    {
        SimplexSolver { dict, iterations: 0, config }
    }

    /// Whether Phase 1 is needed: some row constant lies below the
    /// negated tolerance, so the all-slack basis is not feasible.
    fn needs_phase_one(&self) -> (r: bool)
        ensures
            r == exists|i: int|
                0 <= i < self.dict_view().rows_view().len() && (
                #[trigger] self.dict_view().rows_view()[i]).expr.spec_constant().lt_spec(
                    self.spec_config().tolerance.neg_spec(),
                ),
    {
        let neg_tol = self.config.tolerance.negated();
        let n = self.dict.num_rows();
        let mut i: usize = 0;
        while i < n
            invariant
                n == self.dict_view().rows_view().len(),
                i <= n,
                neg_tol == self.spec_config().tolerance.neg_spec(),
                forall|k: int|
                    0 <= k < i ==> !(#[trigger] self.dict_view().rows_view()[k]).expr
                        .spec_constant().lt_spec(self.spec_config().tolerance.neg_spec()),
            decreases n - i,
        {
            if self.dict.row_constant(i).less_than(neg_tol) {
                return true;
            }
            i = i + 1;
        }
        false
    }

    /// Dantzig's rule with a structural tie-break: among objective terms
    /// whose coefficient exceeds the tolerance, an entering variable with
    /// a maximal coefficient is chosen; among coefficient ties, one of
    /// maximal kind rank (structural variables over slacks).
    fn find_entering_variable(&self) -> (r: Option<DictionaryVariable>)
        ensures
            r is None <==> (forall|i: int|
                0 <= i < self.dict_view().objective_view()@.len() ==> !entering_candidate(
                    self.dict_view().objective_view()@,
                    self.spec_config().tolerance,
                    i,
                )),
            r matches Some(v) ==> entering_choice(
                self.dict_view().objective_view()@,
                self.spec_config().tolerance,
                v,
            ),
    {
        let obj = self.dict.objective_expr();
        let n = obj.num_terms();
        let mut best: Option<(DictionaryVariable, C)> = None;
        let ghost tol = self.spec_config().tolerance;
        let ghost objv = self.dict_view().objective_view()@;
        let mut i: usize = 0;
        while i < n
            invariant
                n == objv.len(),
                obj@ == objv,
                i <= n,
                tol == self.spec_config().tolerance,
                best is None ==> forall|k: int|
                    0 <= k < i ==> !entering_candidate(objv, tol, k),
                best matches Some(b) ==> exists|k: int|
                    0 <= k < i && (#[trigger] objv[k].0) == b.0 && objv[k].1 == b.1
                        && entering_candidate(objv, tol, k) && (forall|j: int|
                        0 <= j < i && entering_candidate(objv, tol, j) ==> !objv[k].1.lt_spec(
                            #[trigger] objv[j].1,
                        ) && (!objv[j].1.lt_spec(objv[k].1) ==> objv[j].0.rank_spec()
                            <= objv[k].0.rank_spec())),
            decreases n - i,
        {
            let t = obj.term_at(i);
            if self.config.tolerance.less_than(t.1) {
                let replace = match &best {
                    None => true,
                    Some(b) => {
                        if b.1.less_than(t.1) {
                            true
                        } else if t.1.less_than(b.1) {
                            false
                        } else {
                            t.0.kind_rank() >= b.0.kind_rank()
                        }
                    },
                };
                if replace {
                    proof {
                        if let Some(b) = best {
                            let k = choose|k: int|
                                0 <= k < i && (#[trigger] objv[k].0) == b.0 && objv[k].1 == b.1
                                    && entering_candidate(objv, tol, k) && (forall|j: int|
                                    0 <= j < i && entering_candidate(objv, tol, j)
                                        ==> !objv[k].1.lt_spec(#[trigger] objv[j].1) && (!objv[
                                        j
                                    ].1.lt_spec(objv[k].1) ==> objv[j].0.rank_spec()
                                        <= objv[k].0.rank_spec()));
                            assert forall|j: int|
                                0 <= j < i + 1 && entering_candidate(objv, tol, j) implies !objv[
                                i as int
                            ].1.lt_spec(objv[j].1) && (!objv[j].1.lt_spec(objv[i as int].1)
                                ==> objv[j].0.rank_spec() <= objv[i as int].0.rank_spec()) by {
                                C::lt_order(b.1, t.1, objv[j].1);
                                C::lt_order(t.1, b.1, objv[j].1);
                                C::lt_order(t.1, t.1, t.1);
                                C::lt_order(b.1, objv[j].1, t.1);
                                C::lt_order(objv[j].1, b.1, t.1);
                                C::lt_order(objv[j].1, t.1, b.1);
                            }
                        } else {
                            assert forall|j: int|
                                0 <= j < i + 1 && entering_candidate(objv, tol, j) implies !objv[
                                i as int
                            ].1.lt_spec(objv[j].1) && (!objv[j].1.lt_spec(objv[i as int].1)
                                ==> objv[j].0.rank_spec() <= objv[i as int].0.rank_spec()) by {
                                C::lt_order(t.1, t.1, t.1);
                            }
                        }
                    }
                    best = Some((t.0, t.1));
                } else {
                    proof {
                        if let Some(b) = best {
                            assert(!b.1.lt_spec(t.1));
                        }
                    }
                }
            }
            i = i + 1;
        }
        match best {
            None => None,
            Some(b) => Some(b.0),
        }
    }

    /// The largest-ratio rule (the minimum-ratio test under the
    /// dictionary's sign convention): among rows whose coefficient for
    /// the entering variable lies below the negated tolerance, a row with
    /// maximal constant-to-coefficient ratio is chosen; coefficient-tie
    /// ranks break by the kind of the row's basic variable.
    fn find_leaving_row(&self, entering: &DictionaryVariable) -> (r: Option<usize>)
        requires
            self.dict_view().wf(),
        ensures
            r is None <==> no_leaving_row(
                self.dict_view(),
                entering.key_id(),
                self.spec_config().tolerance,
            ),
            r matches Some(row) ==> leaving_choice(
                self.dict_view(),
                entering.key_id(),
                self.spec_config().tolerance,
                row as int,
            ),
    {
        let neg_tol = self.config.tolerance.negated();
        let n = self.dict.num_rows();
        let mut best: Option<(usize, C)> = None;
        let ghost dict = self.dict_view();
        let ghost tol = self.spec_config().tolerance;
        let mut i: usize = 0;
        while i < n
            invariant
                n == dict.rows_view().len(),
                dict == self.dict_view(),
                dict.wf(),
                i <= n,
                tol == self.spec_config().tolerance,
                neg_tol == tol.neg_spec(),
                best is None ==> forall|k: int|
                    0 <= k < i ==> !leaving_candidate(dict, entering.key_id(), tol, k),
                best matches Some(b) ==> {
                    &&& b.0 < i
                    &&& leaving_candidate(dict, entering.key_id(), tol, b.0 as int)
                    &&& b.1 == leaving_ratio(dict, entering.key_id(), b.0 as int)
                    &&& forall|j: int|
                        0 <= j < i && leaving_candidate(dict, entering.key_id(), tol, j)
                            ==> !b.1.lt_spec(
                            #[trigger] leaving_ratio(dict, entering.key_id(), j),
                        ) && (!leaving_ratio(dict, entering.key_id(), j).lt_spec(b.1)
                            ==> dict.rows_view()[j].basic.rank_spec()
                            <= dict.rows_view()[b.0 as int].basic.rank_spec())
                },
            decreases n - i,
        {
            let coefficient = self.dict.row_coefficient(i, entering);
            if coefficient.less_than(neg_tol) && !coefficient.is_negligible() {
                let ratio = self.dict.row_constant(i).divided_by(coefficient);
                let replace = match &best {
                    None => true,
                    Some(b) => {
                        if b.1.less_than(ratio) {
                            true
                        } else if ratio.less_than(b.1) {
                            false
                        } else {
                            self.dict.row_basic(i).kind_rank() >= self.dict.row_basic(
                                b.0,
                            ).kind_rank()
                        }
                    },
                };
                proof {
                    if coeff_of(dict.rows_view()[i as int].expr@, entering.key_id()) is None {
                        C::zero_significance();
                        assert(false);
                    }
                    assert(ratio == leaving_ratio(dict, entering.key_id(), i as int));
                }
                if replace {
                    proof {
                        if let Some(b) = best {
                            assert forall|j: int|
                                0 <= j < i + 1 && leaving_candidate(
                                    dict,
                                    entering.key_id(),
                                    tol,
                                    j,
                                ) implies !ratio.lt_spec(
                                leaving_ratio(dict, entering.key_id(), j),
                            ) && (!leaving_ratio(dict, entering.key_id(), j).lt_spec(ratio)
                                ==> dict.rows_view()[j].basic.rank_spec()
                                <= dict.rows_view()[i as int].basic.rank_spec()) by {
                                let rj = leaving_ratio(dict, entering.key_id(), j);
                                C::lt_order(b.1, ratio, rj);
                                C::lt_order(ratio, b.1, rj);
                                C::lt_order(ratio, ratio, ratio);
                                C::lt_order(b.1, rj, ratio);
                                C::lt_order(rj, b.1, ratio);
                                C::lt_order(rj, ratio, b.1);
                            }
                        } else {
                            assert forall|j: int|
                                0 <= j < i + 1 && leaving_candidate(
                                    dict,
                                    entering.key_id(),
                                    tol,
                                    j,
                                ) implies !ratio.lt_spec(
                                leaving_ratio(dict, entering.key_id(), j),
                            ) && (!leaving_ratio(dict, entering.key_id(), j).lt_spec(ratio)
                                ==> dict.rows_view()[j].basic.rank_spec()
                                <= dict.rows_view()[i as int].basic.rank_spec()) by {
                                C::lt_order(ratio, ratio, ratio);
                            }
                        }
                    }
                    best = Some((i, ratio));
                } else {
                    proof {
                        if let Some(b) = best {
                            assert(!b.1.lt_spec(ratio));
                        }
                    }
                }
            } else {
                proof {
                    if leaving_candidate(dict, entering.key_id(), tol, i as int) {
                        crate::expression::lemma_coeff_of_some_significant(
                            dict.rows_view()[i as int].expr@,
                            entering.key_id(),
                        );
                    }
                }
            }
            i = i + 1;
        }
        match best {
            None => None,
            Some(b) => Some(b.0),
        }
    }

    /// The row with the most negative constant: the forced first leaving
    /// row of Phase 1.
    fn find_most_negative_row(&self) -> (r: usize)
        requires
            self.dict_view().rows_view().len() > 0,
        ensures
            most_negative_row(self.dict_view(), r as int),
    {
        let n = self.dict.num_rows();
        let mut best: usize = 0;
        let mut best_value = self.dict.row_constant(0);
        proof {
            C::lt_order(best_value, best_value, best_value);
        }
        let mut i: usize = 1;
        while i < n
            invariant
                n == self.dict_view().rows_view().len(),
                0 < n,
                1 <= i <= n,
                best < i,
                best_value == self.dict_view().rows_view()[best as int].expr.spec_constant(),
                forall|k: int|
                    0 <= k < i ==> !(#[trigger] self.dict_view().rows_view()[k]).expr
                        .spec_constant().lt_spec(best_value),
            decreases n - i,
        {
            let c = self.dict.row_constant(i);
            if c.less_than(best_value) {
                proof {
                    assert forall|k: int|
                        0 <= k < i + 1 implies !(#[trigger] self.dict_view().rows_view()[k]).expr
                        .spec_constant().lt_spec(c) by {
                        C::lt_order(
                            self.dict_view().rows_view()[k].expr.spec_constant(),
                            c,
                            best_value,
                        );
                        C::lt_order(c, c, c);
                    }
                }
                best = i;
                best_value = c;
            } else {
                proof {
                    assert(!self.dict_view().rows_view()[i as int].expr.spec_constant().lt_spec(
                        best_value,
                    ));
                }
            }
            i = i + 1;
        }
        best
    }

    /// The common loop of both phases: repeatedly select an entering
    /// variable and a leaving row and pivot, stopping per the step
    /// decision. On `Optimal` no objective coefficient exceeds the
    /// tolerance; on `Unbounded` the found entering variable has no
    /// leaving row; on `MaxIterationsReached` the budget is spent.
    fn solve_loop(&mut self) -> (status: SolverStatus)
        requires
            old(self).dict_view().wf(),
        ensures
            final(self).dict_view().wf(),
            final(self).spec_config() == old(self).spec_config(),
            final(self).dict_view().rows_view().len() <= old(self).dict_view().rows_view().len(),
            aux_free(old(self).dict_view()) ==> aux_free(final(self).dict_view()),
            status is Optimal || status is Unbounded || status is MaxIterationsReached,
            status is Optimal ==> forall|i: int|
                0 <= i < final(self).dict_view().objective_view()@.len() ==> !entering_candidate(
                    final(self).dict_view().objective_view()@,
                    final(self).spec_config().tolerance,
                    i,
                ),
            status is Unbounded ==> exists|v: DictionaryVariable|
                #[trigger] unbounded_outcome(
                    final(self).dict_view(),
                    final(self).spec_config().tolerance,
                    v,
                ),
            status is MaxIterationsReached ==> final(self).spec_iterations()
                >= final(self).spec_config().max_iterations,
            final(self).spec_iterations() >= old(self).spec_iterations(),
            old(self).spec_iterations() <= old(self).spec_config().max_iterations ==> final(self).spec_iterations() <= old(self).spec_config().max_iterations,
            old(self).spec_iterations() > old(self).spec_config().max_iterations ==> final(self).spec_iterations() == old(self).spec_iterations(),
            exists|trace: Seq<SlackDictionary<C>>|
                #[trigger] solver_run(
                    old(self).dict_view(),
                    final(self).dict_view(),
                    old(self).spec_config().tolerance,
                    final(self).spec_iterations() - old(self).spec_iterations(),
                    trace,
                ),
    {
        let ghost mut trace: Seq<SlackDictionary<C>> = seq![old(self).dict_view()];
        loop
            invariant
                self.dict_view().wf(),
                self.spec_config() == old(self).spec_config(),
                self.dict_view().rows_view().len() <= old(self).dict_view().rows_view().len(),
                aux_free(old(self).dict_view()) ==> aux_free(self.dict_view()),
                trace.len() == self.spec_iterations() - old(self).spec_iterations() + 1,
                trace[0] == old(self).dict_view(),
                trace[trace.len() - 1] == self.dict_view(),
                forall|i: int|
                    0 <= i < trace.len() - 1 ==> rule_conforming_pivot(
                        #[trigger] trace[i],
                        trace[i + 1],
                        old(self).spec_config().tolerance,
                    ),
                self.spec_iterations() >= old(self).spec_iterations(),
                old(self).spec_iterations() <= old(self).spec_config().max_iterations
                    ==> self.spec_iterations() <= old(self).spec_config().max_iterations,
                old(self).spec_iterations() > old(self).spec_config().max_iterations
                    ==> self.spec_iterations() == old(self).spec_iterations(),
            decreases self.config.max_iterations - self.iterations,
        {
            let entering_opt = self.find_entering_variable();
            let mut leaving_opt: Option<usize> = None;
            let has_entering = entering_opt.is_some();
            if let Some(entering) = &entering_opt {
                leaving_opt = self.find_leaving_row(entering);
            }
            let has_leaving = leaving_opt.is_some();
            match step_decision(
                self.iterations,
                self.config.max_iterations,
                has_entering,
                has_leaving,
            ) {
                StepDecision::Finished(status) => {
                    proof {
                        if status is Unbounded {
                            let v = entering_opt->Some_0;
                            assert(unbounded_outcome(
                                self.dict_view(),
                                self.spec_config().tolerance,
                                v,
                            ));
                        }
                        assert(solver_run(
                            old(self).dict_view(),
                            self.dict_view(),
                            old(self).spec_config().tolerance,
                            self.spec_iterations() - old(self).spec_iterations(),
                            trace,
                        ));
                    }
                    return status;
                },
                StepDecision::Pivot => {
                    let entering = entering_opt.unwrap();
                    let row = leaving_opt.unwrap();
                    let ghost pre_pivot = self.dict_view();
                    proof {
                        let dict = self.dict_view();
                        assert(leaving_candidate(
                            dict,
                            entering.key_id(),
                            self.spec_config().tolerance,
                            row as int,
                        ));
                        assert forall|r: int|
                            0 <= r < dict.rows_view().len() implies (
                        #[trigger] dict.rows_view()[r]).basic.key_id() != entering.key_id() by {
                            assert(coeff_of(
                                dict.rows_view()[r].expr@,
                                dict.rows_view()[r].basic.key_id(),
                            ) is None);
                        }
                    }
                    self.dict.pivot(entering, row);
                    proof {
                        assert(entering_choice(
                            pre_pivot.objective_view()@,
                            old(self).spec_config().tolerance,
                            entering,
                        ));
                        assert(leaving_choice(
                            pre_pivot,
                            entering.key_id(),
                            old(self).spec_config().tolerance,
                            row as int,
                        ));
                        assert(crate::dictionary::pivot_relation(
                            pre_pivot,
                            self.dict_view(),
                            entering,
                            row as int,
                        ));
                        assert(rule_conforming_pivot(
                            pre_pivot,
                            self.dict_view(),
                            old(self).spec_config().tolerance,
                        ));
                        trace = trace.push(self.dict_view());
                        if aux_free(pre_pivot) {
                            assert(!(entering is Auxiliary)) by {
                                if entering is Auxiliary {
                                    assert(coeff_of(
                                        pre_pivot.rows_view()[row as int].expr@,
                                        DictionaryVariable::Auxiliary.key_id(),
                                    ) is None);
                                }
                            }
                            lemma_pivot_preserves_aux_free(
                                pre_pivot,
                                self.dict_view(),
                                entering,
                                row as int,
                            );
                        }
                    }
                    self.iterations = self.iterations + 1;
                },
            }
        }
    }

    /// Runs the two-phase solve to a terminal status and reports the
    /// solution at the final dictionary.
    ///
    /// Infeasibility is decided by the auxiliary optimum alone: if Phase 1
    /// stops at the iteration cap with the auxiliary objective still away
    /// from zero, the problem is reported infeasible, not
    /// `MaxIterationsReached`.
    pub fn start(&mut self) -> (r: SolverSolution<C>)
        requires
            ready_dictionary(old(self).dict_view()),
            old(self).spec_iterations() == 0,
        ensures
            final(self).dict_view().wf(),
            final(self).spec_config() == old(self).spec_config(),
            r.status is Optimal || r.status is Infeasible || r.status is Unbounded
                || r.status is MaxIterationsReached,
            r.iterations == final(self).spec_iterations(),
            old(self).spec_config().max_iterations > 0 ==> r.iterations <= old(self).spec_config().max_iterations,
            r.iterations <= old(self).spec_config().max_iterations + 1,
            r.status is MaxIterationsReached ==> r.iterations >= old(self).spec_config().max_iterations,
            r.status is Infeasible <==> r.objective_value is None,
            r.status is Infeasible <==> r.variable_values is None,
            r.keys_unique(),
            r.status is Infeasible ==> outside_tolerance(
                final(self).dict_view().objective_view().spec_constant(),
                old(self).spec_config().tolerance,
            ),
            r.status is Infeasible ==> exists|i: int|
                0 <= i < old(self).dict_view().rows_view().len() && (
                #[trigger] old(self).dict_view().rows_view()[i]).expr.spec_constant().lt_spec(
                    old(self).spec_config().tolerance.neg_spec(),
                ),
            r.status is Infeasible ==> (forall|i: int|
                0 <= i < final(self).dict_view().objective_view()@.len() ==> !entering_candidate(
                    final(self).dict_view().objective_view()@,
                    final(self).spec_config().tolerance,
                    i,
                )) || (exists|v: DictionaryVariable|
                #[trigger] unbounded_outcome(
                    final(self).dict_view(),
                    final(self).spec_config().tolerance,
                    v,
                )) || final(self).spec_iterations() >= final(self).spec_config().max_iterations,
            !(r.status is Infeasible) ==> r.objective_value == Some(
                final(self).dict_view().objective_view().spec_constant(),
            ),
            r.status is Optimal ==> forall|i: int|
                0 <= i < final(self).dict_view().objective_view()@.len() ==> !entering_candidate(
                    final(self).dict_view().objective_view()@,
                    final(self).spec_config().tolerance,
                    i,
                ),
            r.status is Unbounded ==> exists|v: DictionaryVariable|
                #[trigger] unbounded_outcome(
                    final(self).dict_view(),
                    final(self).spec_config().tolerance,
                    v,
                ),
            !(exists|i: int|
                0 <= i < old(self).dict_view().rows_view().len() && (
                #[trigger] old(self).dict_view().rows_view()[i]).expr.spec_constant().lt_spec(
                    old(self).spec_config().tolerance.neg_spec(),
                )) ==> exists|trace: Seq<SlackDictionary<C>>|
                #[trigger] solver_run(
                    old(self).dict_view(),
                    final(self).dict_view(),
                    old(self).spec_config().tolerance,
                    r.iterations as int,
                    trace,
                ),
            r.status is Infeasible ==> phase_one_run(
                old(self).dict_view(),
                final(self).dict_view(),
                old(self).spec_config().tolerance,
                r.iterations as int,
            ),
            (exists|i: int|
                0 <= i < old(self).dict_view().rows_view().len() && (
                #[trigger] old(self).dict_view().rows_view()[i]).expr.spec_constant().lt_spec(
                    old(self).spec_config().tolerance.neg_spec(),
                )) && !(r.status is Infeasible) ==> two_phase_run(
                old(self).dict_view(),
                final(self).dict_view(),
                old(self).spec_config().tolerance,
                r.iterations as int,
            ),
            r.variable_values matches Some(vals) ==> values_genuine(
                final(self).dict_view(),
                vals@,
            ) && all_basics_listed(final(self).dict_view(), vals@),
            !(r.status is Infeasible) ==> aux_free(final(self).dict_view()),
    {
        proof {
            lemma_ready_is_aux_free(self.dict_view());
        }
        let ghost mut ran_phase_one: bool = false;
        let ghost mut d1g: SlackDictionary<C> = self.dict_view();
        let ghost mut d2g: SlackDictionary<C> = self.dict_view();
        let ghost mut d3g: SlackDictionary<C> = self.dict_view();
        let ghost mut k1g: int = 0;
        if self.needs_phase_one() {
            let aux = DictionaryVariable::new_auxiliary();
            proof {
                assert forall|k: int|
                    0 <= k < self.dict_view().rows_view().len() implies (
                #[trigger] self.dict_view().rows_view()[k]).basic.key_id() != aux.key_id() by {}
                C::one_significance();
                C::neg_significance(C::one_spec());
            }
            let minus_one = C::one().negated();
            let aux_objective = LinearExpr::<DictionaryVariable, C>::with_term(aux, minus_one);
            proof {
                assert forall|k: int|
                    0 <= k < self.dict_view().rows_view().len() implies coeff_of(
                    aux_objective@,
                    (#[trigger] self.dict_view().rows_view()[k]).basic.key_id(),
                ) is None by {}
            }
            let original_objective = self.dict.replace_objective(aux_objective);
            let one = C::one();
            let ghost pre_aux = self.dict_view();
            self.dict.add_var_to_all_entries(aux, one);
            let ghost d0 = self.dict_view();
            proof {
                assert forall|k: int|
                    0 <= k < self.dict_view().rows_view().len() implies coeff_of(
                    (#[trigger] self.dict_view().rows_view()[k]).expr@,
                    aux.key_id(),
                ) == Some(C::one_spec()) by {
                    crate::dictionary::lemma_non_slack_key_absent(
                        pre_aux.rows_view()[k].expr@,
                        aux,
                    );
                }
                assert(aux_setup(old(self).dict_view(), d0));
            }
            self.iterations = self.iterations + 1;
            let leaving = self.find_most_negative_row();
            self.dict.pivot(aux, leaving);
            let ghost d1 = self.dict_view();
            let ghost pre_loop_iterations = self.spec_iterations();
            proof {
                assert(crate::dictionary::pivot_relation(
                    d0,
                    d1,
                    DictionaryVariable::Auxiliary,
                    leaving as int,
                ));
                assert(phase_one_entry(
                    old(self).dict_view(),
                    d1,
                    old(self).spec_config().tolerance,
                ));
                ran_phase_one = true;
                d1g = d1;
            }
            let _phase1_status = self.solve_loop();
            let aux_value = self.dict.objective_value();
            let tolerance = self.config.tolerance;
            let aux_within = !aux_value.less_than(tolerance.negated()) && !tolerance.less_than(
                aux_value,
            );
            match phase_one_outcome(aux_within) {
                PhaseOneOutcome::Infeasible => {
                    proof {
                        let tr = choose|trace: Seq<SlackDictionary<C>>|
                            #[trigger] solver_run(
                                d1,
                                self.dict_view(),
                                old(self).spec_config().tolerance,
                                self.spec_iterations() - pre_loop_iterations,
                                trace,
                            );
                        assert(solver_run(
                            d1,
                            self.dict_view(),
                            old(self).spec_config().tolerance,
                            self.spec_iterations() as int - 1,
                            tr,
                        ));
                        assert(phase_one_run(
                            old(self).dict_view(),
                            self.dict_view(),
                            old(self).spec_config().tolerance,
                            self.spec_iterations() as int,
                        ));
                    }
                    return SolverSolution {
                        status: SolverStatus::Infeasible,
                        objective_value: None,
                        variable_values: None,
                        iterations: self.iterations,
                    };
                },
                PhaseOneOutcome::ProceedToPhaseTwo => {
                    proof {
                        d2g = self.dict_view();
                        k1g = self.spec_iterations() - 1;
                        let tr = choose|trace: Seq<SlackDictionary<C>>|
                            #[trigger] solver_run(
                                d1,
                                self.dict_view(),
                                old(self).spec_config().tolerance,
                                self.spec_iterations() - pre_loop_iterations,
                                trace,
                            );
                        assert(solver_run(
                            d1g,
                            d2g,
                            old(self).spec_config().tolerance,
                            k1g,
                            tr,
                        ));
                        assert(chained_run(d1g, d2g, old(self).spec_config().tolerance, k1g));
                        assert(!outside_tolerance(
                            d2g.objective_view().spec_constant(),
                            old(self).spec_config().tolerance,
                        ));
                    }
                    let ghost saved_objective = original_objective;
                    proof {
                        assert(saved_objective == old(self).dict_view().objective_view());
                    }
                    self.prepare_phase_two(aux, original_objective);
                    proof {
                        d3g = self.dict_view();
                        assert(aux_retirement(
                            d2g,
                            d3g,
                            old(self).dict_view().objective_view(),
                        ));
                    }
                },
            }
        }
        let ghost pre_final_dict = self.dict_view();
        let ghost pre_final_iterations = self.spec_iterations();
        let status = self.solve_loop();
        let objective_value = self.dict.objective_value();
        let variable_values = self.collect_basic_values();
        let result = SolverSolution {
            status,
            objective_value: Some(objective_value),
            variable_values: Some(variable_values),
            iterations: self.iterations,
        };
        proof {
            if ran_phase_one {
                let tr2 = choose|trace: Seq<SlackDictionary<C>>|
                    #[trigger] solver_run(
                        pre_final_dict,
                        self.dict_view(),
                        old(self).spec_config().tolerance,
                        self.spec_iterations() - pre_final_iterations,
                        trace,
                    );
                assert(solver_run(
                    d3g,
                    self.dict_view(),
                    old(self).spec_config().tolerance,
                    result.iterations as int - 1 - k1g,
                    tr2,
                ));
                assert(chained_run(
                    d3g,
                    self.dict_view(),
                    old(self).spec_config().tolerance,
                    result.iterations as int - 1 - k1g,
                ));
                assert(two_phase_run(
                    old(self).dict_view(),
                    self.dict_view(),
                    old(self).spec_config().tolerance,
                    result.iterations as int,
                ));
            }
            if !(exists|i: int|
                0 <= i < old(self).dict_view().rows_view().len() && (
                #[trigger] old(self).dict_view().rows_view()[i]).expr.spec_constant().lt_spec(
                    old(self).spec_config().tolerance.neg_spec(),
                )) {
                assert(pre_final_dict == old(self).dict_view());
                assert(pre_final_iterations == 0);
                let tr = choose|trace: Seq<SlackDictionary<C>>|
                    #[trigger] solver_run(
                        pre_final_dict,
                        self.dict_view(),
                        old(self).spec_config().tolerance,
                        self.spec_iterations() - pre_final_iterations,
                        trace,
                    );
                assert(solver_run(
                    old(self).dict_view(),
                    self.dict_view(),
                    old(self).spec_config().tolerance,
                    result.iterations as int,
                    tr,
                ));
            }
        }
        result
    }

    /// Retires the auxiliary variable and reinstalls the saved objective:
    /// if `aux` is still basic, pivot it out against any significant term
    /// of its row, or drop the row as a redundant equality; then remove
    /// `aux` from every row and substitute every current basic out of the
    /// saved objective before installing it.
    fn prepare_phase_two(&mut self, aux: DictionaryVariable, objective: LinearExpr<
        DictionaryVariable,
        C,
    >)
        requires
            old(self).dict_view().wf(),
            aux is Auxiliary,
            objective.wf(),
            non_slack_terms(objective@),
        ensures
            final(self).dict_view().wf(),
            final(self).spec_config() == old(self).spec_config(),
            final(self).spec_iterations() == old(self).spec_iterations(),
            aux_free(final(self).dict_view()),
            aux_retirement(old(self).dict_view(), final(self).dict_view(), objective),
    {
        let ghost saved = objective;
        let n = self.dict.num_rows();
        let mut aux_row: Option<usize> = None;
        let mut i: usize = 0;
        while i < n
            invariant
                n == self.dict_view().rows_view().len(),
                i <= n,
                self.dict_view().wf(),
                aux_row matches Some(r) ==> r < n && self.dict_view().rows_view()[r as int].basic
                    == aux,
                aux_row is None ==> forall|k: int|
                    0 <= k < i ==> !((#[trigger] self.dict_view().rows_view()[k]).basic
                        is Auxiliary),
                aux is Auxiliary,
            decreases n - i,
        {
            if matches!(self.dict.row_basic(i), DictionaryVariable::Auxiliary) {
                proof {
                    assert(self.dict_view().rows_view()[i as int].basic is Auxiliary);
                    assert(self.dict_view().rows_view()[i as int].basic == aux);
                }
                aux_row = Some(i);
            }
            i = i + 1;
        }
        if let Some(row) = aux_row {
            let tol = self.config.tolerance;
            let neg_tol = tol.negated();
            let row_expr = self.dict.row_expr(row);
            let m = row_expr.num_terms();
            let mut pivot_var: Option<DictionaryVariable> = None;
            let mut k: usize = 0;
            while k < m
                invariant
                    m == row_expr@.len(),
                    k <= m,
                    row_expr@ == self.dict_view().rows_view()[row as int].expr@,
                    row < self.dict_view().rows_view().len(),
                    self.dict_view().wf(),
                    pivot_var matches Some(v) ==> exists|t: int|
                        0 <= t < row_expr@.len() && (#[trigger] row_expr@[t].0) == v,
                decreases m - k,
            {
                let t = row_expr.term_at(k);
                if tol.less_than(t.1) || t.1.less_than(neg_tol) {
                    pivot_var = Some(t.0);
                    k = m;
                } else {
                    k = k + 1;
                }
            }
            match pivot_var {
                Some(v) => {
                    let ghost pre_resolution = self.dict_view();
                    proof {
                        let dict = self.dict_view();
                        let s = dict.rows_view()[row as int].expr@;
                        let t = choose|t: int| 0 <= t < s.len() && (#[trigger] s[t].0) == v;
                        crate::expression::lemma_coeff_of_present(s, t);
                        assert forall|r: int|
                            0 <= r < dict.rows_view().len() implies (
                        #[trigger] dict.rows_view()[r]).basic.key_id() != v.key_id() by {
                            assert(coeff_of(
                                dict.rows_view()[row as int].expr@,
                                dict.rows_view()[r].basic.key_id(),
                            ) is None);
                        }
                    }
                    self.dict.pivot(v, row);
                    proof {
                        assert(crate::dictionary::pivot_relation(
                            pre_resolution,
                            self.dict_view(),
                            v,
                            row as int,
                        ));
                        assert(aux_basic_resolution(old(self).dict_view(), self.dict_view()));
                    }
                },
                None => {
                    let ghost pre_resolution = self.dict_view();
                    self.dict.remove_entry(row);
                    proof {
                        assert(self.dict_view().rows_view() == pre_resolution.rows_view().remove(
                            row as int,
                        ));
                        assert(aux_basic_resolution(old(self).dict_view(), self.dict_view()));
                    }
                },
            }
        } else {
            proof {
                assert(aux_basic_resolution(old(self).dict_view(), self.dict_view()));
            }
        }
        let ghost mid1 = self.dict_view();
        proof {
            assert forall|r: int|
                0 <= r < self.dict_view().rows_view().len() implies (
            #[trigger] self.dict_view().rows_view()[r]).basic.key_id() != aux.key_id() by {
                let b = self.dict_view().rows_view()[r].basic;
                if b is Auxiliary {
                    assert(b.key_id() == 0);
                }
                assert(!(b is Auxiliary) ==> b.key_id() != 0);
            }
        }
        self.dict.remove_var_from_all_entries(aux);
        let ghost mid2 = self.dict_view();
        proof {
            assert(aux_removal(mid1, mid2));
            crate::dictionary::lemma_non_slack_key_absent(objective@, aux);
            assert forall|k: int|
                0 <= k < self.dict_view().rows_view().len() implies !((
            #[trigger] self.dict_view().rows_view()[k]).basic is Auxiliary) by {
                assert(self.dict_view().rows_view()[k].basic.key_id() != aux.key_id());
            }
        }
        let mut restored = objective;
        let ghost mut chain: Seq<LinearExpr<DictionaryVariable, C>> = seq![saved];
        let rows = self.dict.num_rows();
        let mut r: usize = 0;
        while r < rows
            invariant
                rows == self.dict_view().rows_view().len(),
                r <= rows,
                self.dict_view() == mid2,
                self.dict_view().wf(),
                restored.wf(),
                chain.len() == r + 1,
                chain[0] == saved,
                chain[r as int] == restored,
                forall|i: int|
                    0 <= i < r ==> crate::expression::substitution_rewrite(
                        #[trigger] chain[i],
                        self.dict_view().rows_view()[i].basic,
                        self.dict_view().rows_view()[i].expr,
                        chain[i + 1],
                    ),
                aux is Auxiliary,
                forall|k: int|
                    0 <= k < rows ==> !((#[trigger] self.dict_view().rows_view()[k]).basic
                        is Auxiliary),
                forall|k: int|
                    0 <= k < rows ==> coeff_of(
                        (#[trigger] self.dict_view().rows_view()[k]).expr@,
                        DictionaryVariable::Auxiliary.key_id(),
                    ) is None,
                coeff_of(restored@, DictionaryVariable::Auxiliary.key_id()) is None,
                forall|k: int|
                    0 <= k < r ==> coeff_of(
                        restored@,
                        (#[trigger] self.dict_view().rows_view()[k]).basic.key_id(),
                    ) is None,
            decreases rows - r,
        {
            let basic = self.dict.row_basic(r);
            let expr = self.dict.row_expr(r);
            let ghost before = restored;
            proof {
                assert(self.dict_view().rows_view()[r as int].expr.wf());
            }
            restored.replace_var_with_expr(basic, &expr);
            proof {
                chain = chain.push(restored);
                assert(crate::expression::substitution_rewrite(
                    chain[r as int],
                    self.dict_view().rows_view()[r as int].basic,
                    self.dict_view().rows_view()[r as int].expr,
                    chain[r + 1],
                ));
                assert(coeff_of(
                    self.dict_view().rows_view()[r as int].expr@,
                    DictionaryVariable::Auxiliary.key_id(),
                ) is None);
                assert(basic.key_id() != DictionaryVariable::Auxiliary.key_id());
                assert forall|k: int|
                    0 <= k <= r implies coeff_of(
                    restored@,
                    (#[trigger] self.dict_view().rows_view()[k]).basic.key_id(),
                ) is None by {
                    let b = self.dict_view().rows_view()[k].basic.key_id();
                    assert(coeff_of(self.dict_view().rows_view()[r as int].expr@, b) is None);
                }
            }
            r = r + 1;
        }
        self.dict.replace_objective(restored);
        proof {
            assert(aux_free(self.dict_view()));
            assert(objective_restored(mid2, saved, self.dict_view().objective_view()));
            assert(aux_retirement(old(self).dict_view(), self.dict_view(), saved));
        }
    }

    /// The values of the standard variables that are basic in the final
    /// dictionary: each row whose basic is a non-slack variable
    /// contributes its constant. Every other standard variable is
    /// non-basic and implicitly zero.
    fn collect_basic_values(&self) -> (r: Vec<(StandardVariableKey, C)>)
        requires
            self.dict_view().wf(),
        ensures
            values_genuine(self.dict_view(), r@),
            all_basics_listed(self.dict_view(), r@),
            distinct_keys(r@),
    {
        let n = self.dict.num_rows();
        let mut out: Vec<(StandardVariableKey, C)> = Vec::new();
        let mut i: usize = 0;
        while i < n
            invariant
                n == self.dict_view().rows_view().len(),
                i <= n,
                self.dict_view().wf(),
                forall|p: int|
                    0 <= p < out@.len() ==> exists|k: int|
                        0 <= k < i && (#[trigger] self.dict_view().rows_view()[k]).basic
                            == DictionaryVariable::NonSlack((#[trigger] out@[p]).0) && out@[p].1
                            == self.dict_view().rows_view()[k].expr.spec_constant(),
                forall|k: int|
                    0 <= k < i && (#[trigger] self.dict_view().rows_view()[k]).basic is NonSlack
                        ==> exists|p: int|
                        0 <= p < out@.len() && (#[trigger] out@[p]) == (
                            self.dict_view().rows_view()[k].basic->NonSlack_0,
                            self.dict_view().rows_view()[k].expr.spec_constant(),
                        ),
                distinct_keys(out@),
            decreases n - i,
        {
            let basic = self.dict.row_basic(i);
            let ghost prev_out = out@;
            if let DictionaryVariable::NonSlack(key) = basic {
                let value = self.dict.row_constant(i);
                proof {
                    assert forall|p: int| 0 <= p < prev_out.len() implies (
                    #[trigger] prev_out[p]).0 != key by {
                        let k = choose|k: int|
                            0 <= k < i && (#[trigger] self.dict_view().rows_view()[k]).basic
                                == DictionaryVariable::NonSlack(prev_out[p].0) && prev_out[p].1
                                == self.dict_view().rows_view()[k].expr.spec_constant();
                        if prev_out[p].0 == key {
                            assert(self.dict_view().rows_view()[k].basic.key_id()
                                == self.dict_view().rows_view()[i as int].basic.key_id());
                        }
                    }
                }
                out.push((key, value));
                proof {
                    assert(out@[out@.len() - 1] == (key, value));
                    assert(self.dict_view().rows_view()[i as int].basic->NonSlack_0 == key);
                }
            }
            proof {
                assert forall|k: int|
                    0 <= k < i + 1 && (#[trigger] self.dict_view().rows_view()[k]).basic
                        is NonSlack implies exists|p: int|
                    0 <= p < out@.len() && (#[trigger] out@[p]) == (
                        self.dict_view().rows_view()[k].basic->NonSlack_0,
                        self.dict_view().rows_view()[k].expr.spec_constant(),
                    ) by {
                    let target = (
                        self.dict_view().rows_view()[k].basic->NonSlack_0,
                        self.dict_view().rows_view()[k].expr.spec_constant(),
                    );
                    if k < i {
                        let p = choose|p: int|
                            0 <= p < prev_out.len() && (#[trigger] prev_out[p]) == target;
                        assert(out@[p] == target);
                    } else {
                        assert(out@[out@.len() - 1] == target);
                    }
                }
            }
            i = i + 1;
        }
        proof {
            assert forall|p: int| 0 <= p < out@.len() implies reported_entry(
                self.dict_view(),
                #[trigger] out@[p],
            ) by {}
            assert(values_genuine(self.dict_view(), out@));
            assert(all_basics_listed(self.dict_view(), out@));
        }
        out
    }
}

/// Pairwise distinct variable keys in a reported value list.
pub open spec fn distinct_keys<C: Coeff>(s: Seq<(StandardVariableKey, C)>) -> bool {
    forall|p: int, q: int|
        0 <= p < q < s.len() ==> (#[trigger] s[p]).0 != (#[trigger] s[q]).0
}

/// Every listed value is genuine: each pair is a basic row's variable
/// and constant.
pub open spec fn values_genuine<C: Coeff>(
    dict: SlackDictionary<C>,
    vals: Seq<(StandardVariableKey, C)>,
) -> bool {
    forall|p: int| 0 <= p < vals.len() ==> reported_entry(dict, #[trigger] vals[p])
}

/// Every row whose basic variable is a standard variable is listed with
/// its constant.
pub open spec fn all_basics_listed<C: Coeff>(
    dict: SlackDictionary<C>,
    vals: Seq<(StandardVariableKey, C)>,
) -> bool {
    forall|k: int|
        0 <= k < dict.rows_view().len() && (#[trigger] dict.rows_view()[k]).basic is NonSlack
            ==> exists|p: int|
            0 <= p < vals.len() && (#[trigger] vals[p]) == (
                dict.rows_view()[k].basic->NonSlack_0,
                dict.rows_view()[k].expr.spec_constant(),
            )
}

/// A reported variable value is genuine: some row's basic variable is
/// exactly that standard variable, and the value is that row's constant.
pub open spec fn reported_entry<C: Coeff>(
    dict: SlackDictionary<C>,
    entry: (StandardVariableKey, C),
) -> bool {
    exists|k: int|
        0 <= k < dict.rows_view().len() && (#[trigger] dict.rows_view()[k]).basic
            == DictionaryVariable::NonSlack(entry.0) && entry.1
            == dict.rows_view()[k].expr.spec_constant()
}

} // verus!
