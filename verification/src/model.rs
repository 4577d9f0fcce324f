use crate::basis::{canonical, read_off};
use crate::linear::{dot, lemma_dot_multiple};
use crate::phases::{solve_outcome, Outcome};
use crate::scalar::{map_view, matrix_view, row_view, Scalar};
use crate::solver::{
    is_canonical, is_rectangular, opposite, optimum_view, solve, Optimum, SolveError, PIVOT_LIMIT,
};
use crate::soundness::{
    feasible, lemma_infeasible_has_no_point, lemma_no_feasible_point_is_better,
    lemma_reported_point_is_feasible,
};
use crate::tableau::{built, built_entry, column_value, extracted, rectangular};
use std::collections::HashMap;
use vstd::prelude::*;

verus! {

/// A linear program's objective.
#[derive(Clone, Copy, Debug, PartialEq, Eq, Structural)]
pub enum Objective {
    /// Maximize
    Max,
    /// Minimize
    Min,
}

/// A constraint's comparing operator.
#[derive(Clone, Copy, Debug, PartialEq, Eq, Structural)]
pub enum Operator {
    /// Greater or equal: `>=`
    Ge,
    /// Equal: `==`
    E,
    /// Less or equal: `<=`
    Le,
}

/// The phase a model is in. A model only ever moves to the next phase.
#[derive(Clone, Copy, Debug, PartialEq, Eq, Structural)]
pub enum State {
    /// Variables can be registered.
    VariableRegistration,
    /// Constraints can be registered.
    ConstraintRegistration,
    /// The model can be optimized.
    PostRegistration,
}

/// Why a call on a model failed.
#[derive(Clone, Copy, Debug, PartialEq, Eq, Structural)]
pub enum ModelError {
    /// A variable is not registered for the model.
    UnknownVariable,
    /// The phase in which the call is allowed is over.
    PhaseClosed,
    /// The model holds no value yet for what was asked.
    NotOptimized,
    /// No point satisfies all constraints.
    Infeasible,
    /// A ratio test had two rows with the same smallest ratio.
    Degenerate,
    /// A run of the optimize loop used up its pivots.
    PivotLimit,
}

/// A variable as the model keeps it.
struct Variable<T> {
    name: Option<String>,
    token: u128,
    x: Option<T>,
    objective_value: T,
}

/// A representation of a variable used in the linear program.
pub struct Var {
    reference: u128,
}

impl Var {
    /// The token that tells this variable from all others.
    pub closed spec fn token(&self) -> u128 {
        self.reference
    }

    /// The token that tells this variable from all others.
    pub fn reference(&self) -> (r: u128)
        ensures
            r == self.token(),
    {
        self.reference
    }
}

/// A pair of factor and variable for constructing sums.
pub struct Summand<'a, T>(pub T, pub &'a Var);

/// The numbers and tokens that a sum of summands stands for.
pub open spec fn sum_view<T: Scalar>(sum: Seq<Summand<T>>) -> Seq<(real, u128)> {
    Seq::new(sum.len(), |i: int| (sum[i].0.val(), sum[i].1.token()))
}

/// A fresh random token.
///
/// Calls `uuid::Uuid::new_v4` and hands back the 128 bits of the identifier it made, as
/// `Uuid::as_u128` gives them. The identifier is random, so nothing is claimed of the
/// bits but what every version 4 identifier has: the version digit is 4 and the two
/// variant bits are `10`. The call aborts where the operating system gives no random
/// bytes.
#[verifier::external_body]
fn fresh_token() -> (token: u128)
    ensures
        token & 0x0000_0000_0000_f000_c000_0000_0000_0000u128
            == 0x0000_0000_0000_4000_8000_0000_0000_0000u128,
{
    uuid::Uuid::new_v4().as_u128()
}

/// The coefficient that the first `n` summands of `sum` give the variable with the token
/// `token`: the sum of their factors where they name that variable.
pub open spec fn coefficient(sum: Seq<(real, u128)>, token: u128, n: int) -> real
    decreases n,
{
    if n <= 0 {
        0real
    } else if sum[n - 1].1 == token {
        coefficient(sum, token, n - 1) + sum[n - 1].0
    } else {
        coefficient(sum, token, n - 1)
    }
}

/// The dense row of a sum and a right-hand side: one coefficient for each variable, in the
/// order of `tokens`, and then `b`.
pub open spec fn dense_row(sum: Seq<(real, u128)>, tokens: Seq<u128>, b: real) -> Seq<real> {
    Seq::new(
        tokens.len() + 1,
        |i: int|
            if i < tokens.len() {
                coefficient(sum, tokens[i], sum.len() as int)
            } else {
                b
            },
    )
}

/// The row with every entry negated.
pub open spec fn negated_row(row: Seq<real>) -> Seq<real> {
    Seq::new(row.len(), |i: int| -row[i])
}

/// The sum with every factor negated.
pub open spec fn negated_sum(sum: Seq<(real, u128)>) -> Seq<(real, u128)> {
    Seq::new(sum.len(), |i: int| (-sum[i].0, sum[i].1))
}

/// The standard rows of the constraint `row op`, where `row` holds the coefficients and
/// then the right-hand side: the row itself for `<=`, its negation for `>=`, both for `=`.
pub open spec fn standard_rows(row: Seq<real>, op: Operator) -> Seq<Seq<real>> {
    match op {
        Operator::Le => seq![row],
        Operator::Ge => seq![negated_row(row)],
        Operator::E => seq![row, negated_row(row)],
    }
}

/// The standard form of a `<=` constraint is the constraint itself. The
/// standard form of an `=` constraint is two rows, the constraint and its negation, each of
/// which is the negation of the other in every coefficient and in the right-hand side. The
/// standard form of a `>=` constraint is its negation.
pub proof fn lemma_standard_rows(row: Seq<real>)
    ensures
        standard_rows(row, Operator::Le) == seq![row],
        standard_rows(row, Operator::Ge) == seq![negated_row(row)],
        standard_rows(row, Operator::E).len() == 2,
        standard_rows(row, Operator::E)[0] == row,
        standard_rows(row, Operator::E)[1] == negated_row(standard_rows(row, Operator::E)[0]),
        standard_rows(row, Operator::E)[0] == negated_row(standard_rows(row, Operator::E)[1]),
        forall|j: int|
            0 <= j < row.len() ==> #[trigger] standard_rows(row, Operator::E)[1][j]
                == -standard_rows(row, Operator::E)[0][j],
{
}

/// The sum of a negated row at a point is the opposite of the sum of the row.
pub proof fn lemma_negated_dot(row: Seq<real>, x: Seq<real>, n: int)
    requires
        n <= row.len(),
    ensures
        dot(negated_row(row), x, n) == -dot(row, x, n),
{
    assert forall|j: int| 0 <= j < n implies negated_row(row)[j] == (-1real) * row[j] by {}
    lemma_dot_multiple(negated_row(row), row, -1real, x, n);
}

/// The objective coefficients as the tableau holds them: negated where the model
/// minimizes, so that the tableau always maximizes.
pub open spec fn signed_costs(costs: Seq<real>, sense: Objective) -> Seq<real> {
    match sense {
        Objective::Max => costs,
        Objective::Min => negated_row(costs),
    }
}

/// Every token that the sum names is among `tokens`.
pub open spec fn all_known(sum: Seq<(real, u128)>, tokens: Seq<u128>) -> bool {
    forall|i: int| 0 <= i < sum.len() ==> tokens.contains(#[trigger] sum[i].1)
}

/// The dense row of a negated sum is the negated dense row.
pub proof fn lemma_negated_dense_row(sum: Seq<(real, u128)>, tokens: Seq<u128>, b: real)
    ensures
        dense_row(negated_sum(sum), tokens, -b) == negated_row(dense_row(sum, tokens, b)),
{
    assert forall|i: int| 0 <= i < tokens.len() implies coefficient(
        negated_sum(sum),
        #[trigger] tokens[i],
        sum.len() as int,
    ) == -coefficient(sum, tokens[i], sum.len() as int) by {
        lemma_negated_coefficient(sum, tokens[i], sum.len() as int);
    }
}

/// The coefficient that a negated sum gives is the negated coefficient.
pub proof fn lemma_negated_coefficient(sum: Seq<(real, u128)>, token: u128, n: int)
    requires
        n <= sum.len(),
    ensures
        coefficient(negated_sum(sum), token, n) == -coefficient(sum, token, n),
    decreases n,
{
    if n > 0 {
        lemma_negated_coefficient(sum, token, n - 1);
    }
}

/// The place of the first variable with the token `token`, or the number of variables
/// where no variable has it.
pub open spec fn position(tokens: Seq<u128>, token: u128) -> int
    decreases tokens.len(),
{
    if tokens.len() == 0 {
        0
    } else if tokens[0] == token {
        0
    } else {
        1 + position(tokens.drop_first(), token)
    }
}

/// The place that `position` gives is the first at which the token stands.
pub proof fn lemma_position(tokens: Seq<u128>, token: u128)
    ensures
        0 <= position(tokens, token) <= tokens.len(),
        position(tokens, token) < tokens.len() ==> tokens[position(tokens, token)] == token,
        forall|i: int| 0 <= i < position(tokens, token) ==> tokens[i] != token,
        tokens.contains(token) <==> position(tokens, token) < tokens.len(),
    decreases tokens.len(),
{
    if tokens.len() > 0 && tokens[0] != token {
        let rest = tokens.drop_first();
        lemma_position(rest, token);
        assert forall|i: int| 0 <= i < position(tokens, token) implies tokens[i] != token by {
            if i > 0 {
                assert(rest[i - 1] == tokens[i]);
            }
        }
    }
}

/// Representation of a linear program.
pub struct Model<T: Scalar> {
    name: String,
    state: State,
    objective: Objective,
    variables: Vec<Variable<T>>,
    constraints: Vec<Vec<T>>,
    tableau: Vec<Vec<T>>,
    optimum: Option<Optimum<T>>,
}

impl<T: Scalar> Model<T> {
    /// The model's name.
    pub closed spec fn label(&self) -> Seq<char> {
        self.name@
    }

    /// The phase the model is in.
    pub closed spec fn phase(&self) -> State {
        self.state
    }

    /// Whether the model maximizes or minimizes.
    pub closed spec fn sense(&self) -> Objective {
        self.objective
    }

    /// The tokens of the registered variables, in the order of registration.
    pub closed spec fn tokens(&self) -> Seq<u128> {
        Seq::new(self.variables@.len(), |i: int| self.variables@[i].token)
    }

    /// The names of the registered variables.
    pub closed spec fn names(&self) -> Seq<Option<Seq<char>>> {
        Seq::new(
            self.variables@.len(),
            |i: int|
                match self.variables@[i].name {
                    Some(n) => Some(n@),
                    None => None,
                },
        )
    }

    /// The objective coefficients of the registered variables.
    pub closed spec fn costs(&self) -> Seq<real> {
        Seq::new(self.variables@.len(), |i: int| self.variables@[i].objective_value.val())
    }

    /// The values that the last optimization gave the variables.
    pub closed spec fn values(&self) -> Seq<Option<real>> {
        Seq::new(
            self.variables@.len(),
            |i: int|
                match self.variables@[i].x {
                    Some(v) => Some(v.val()),
                    None => None,
                },
        )
    }

    /// The registered constraints in standard form: each row holds one coefficient for
    /// every variable and then the right-hand side of a `<=` constraint.
    pub closed spec fn rows(&self) -> Seq<Seq<real>> {
        matrix_view(self.constraints@)
    }

    /// The tableau of the last optimization.
    pub closed spec fn grid(&self) -> Seq<Seq<real>> {
        matrix_view(self.tableau@)
    }

    /// The optimal value, once the model is optimized.
    pub closed spec fn best(&self) -> Option<Optimum<real>> {
        match self.optimum {
            Some(o) => Some(optimum_view(o)),
            None => None,
        }
    }

    /// Every constraint row has a coefficient for each variable and a right-hand side, no
    /// constraint is registered while variables still can be, an optimal value is held in
    /// the last phase only, and no variable has a value without it.
    pub closed spec fn wf(&self) -> bool {
        &&& forall|i: int|
            0 <= i < self.constraints@.len() ==> (#[trigger] self.constraints@[i])@.len()
                == self.variables@.len() + 1
        &&& self.state == State::VariableRegistration ==> self.constraints@.len() == 0
        &&& self.state != State::PostRegistration ==> self.optimum is None
        &&& self.optimum is None ==> forall|i: int|
            0 <= i < self.variables@.len() ==> (#[trigger] self.variables@[i]).x is None
    }

    /// What the accessors of a well-formed model have in common.
    pub proof fn lemma_shape(&self)
        requires
            self.wf(),
        ensures
            self.names().len() == self.tokens().len(),
            self.costs().len() == self.tokens().len(),
            self.values().len() == self.tokens().len(),
            forall|i: int|
                0 <= i < self.rows().len() ==> (#[trigger] self.rows()[i]).len()
                    == self.tokens().len() + 1,
            self.phase() == State::VariableRegistration ==> self.rows().len() == 0,
            self.phase() != State::PostRegistration ==> self.best() is None,
            self.best() is None ==> forall|i: int|
                0 <= i < self.values().len() ==> (#[trigger] self.values()[i]) is None,
    {
        assert forall|i: int| 0 <= i < self.rows().len() implies (#[trigger] self.rows()[i]).len()
            == self.tokens().len() + 1 by {}
        if self.best() is None {
            assert forall|i: int| 0 <= i < self.values().len() implies (
            #[trigger] self.values()[i]) is None by {}
        }
    }

    /// Creates a new [`Model`]. A representation of a linear program.
    pub fn new(name: &str, objective: Objective) -> (model: Self)
        ensures
            model.wf(),
            model.label() == name@,
            model.sense() == objective,
            model.phase() == State::VariableRegistration,
            model.tokens().len() == 0,
            model.rows().len() == 0,
            model.grid().len() == 0,
            model.best() is None,
    {
        Model {
            name: name.to_owned(),
            state: State::VariableRegistration,
            objective,
            variables: Vec::new(),
            constraints: Vec::new(),
            tableau: Vec::new(),
            optimum: None,
        }
    }

    /// Submits the registered variables or constraints to the [`Model`]
    /// and changes its phase to the next. This method is called implicitly by
    /// [`reg_constr`](Model::reg_constr) and [`optimize`](Model::optimize).
    ///
    /// The [`Model`]'s lifetime follows three strictly separated phases:
    ///
    ///  - In the first phase, variables can be registered.
    ///  - In the second phase, constraints can be registered.
    ///  - In the third phase, the [`Model`] can be optimized.
    ///
    /// After the variables or constraints are submitted, they can not be changed again: no
    /// phase comes back.
    pub fn update(&mut self)
        requires
            old(self).wf(),
        ensures
            final(self).wf(),
            final(self).phase() == match old(self).phase() {
                State::VariableRegistration => State::ConstraintRegistration,
                State::ConstraintRegistration => State::PostRegistration,
                State::PostRegistration => State::PostRegistration,
            },
            final(self).unchanged_but_phase(old(self)),
    {
        match self.state {
            State::VariableRegistration => {
                self.state = State::ConstraintRegistration;
            },
            State::ConstraintRegistration => {
                self.state = State::PostRegistration;
            },
            State::PostRegistration => {},
        }
    }

    /// Everything but the phase is in `self` as it is in `before`.
    pub open spec fn unchanged_but_phase(&self, before: &Self) -> bool {
        &&& self.label() == before.label()
        &&& self.sense() == before.sense()
        &&& self.tokens() == before.tokens()
        &&& self.names() == before.names()
        &&& self.costs() == before.costs()
        &&& self.values() == before.values()
        &&& self.rows() == before.rows()
        &&& self.grid() == before.grid()
        &&& self.best() == before.best()
    }

    /// The phase and everything else is in `self` as it is in `before`.
    pub open spec fn unchanged(&self, before: &Self) -> bool {
        self.phase() == before.phase() && self.unchanged_but_phase(before)
    }

    /// The phase the model is in.
    pub fn state(&self) -> (r: State)
        ensures
            r == self.phase(),
    {
        self.state
    }

    /// Registers a variable for the [`Model`]. Fails with `PhaseClosed`,
    /// and changes nothing, where the variables were already submitted. See
    /// [`update`](Model::update).
    pub fn reg_var(&mut self, objective_value: T) -> (r: Result<Var, ModelError>)
        requires
            old(self).wf(),
        ensures
            final(self).wf(),
            final(self).registered(old(self), r, objective_value.val(), None),
    {
        self.reg_var_overload(objective_value, None)
    }

    /// Registers a variable, with a given name, for the [`Model`]. Fails
    /// with `PhaseClosed`, and changes nothing, where the variables were already submitted.
    /// See [`update`](Model::update).
    pub fn reg_var_with_name(&mut self, objective_value: T, name: &str) -> (r: Result<
        Var,
        ModelError,
    >)
        requires
            old(self).wf(),
        ensures
            final(self).wf(),
            final(self).registered(old(self), r, objective_value.val(), Some(name@)),
    {
        self.reg_var_overload(objective_value, Some(name.to_owned()))
    }

    /// What registering a variable with the objective coefficient `cost` and the name
    /// `name` makes of the model `before`, given the result `r` of the call: in the first
    /// phase the variable is added behind the others under the token of the handle that is
    /// handed out; in a later phase the call fails and nothing changes.
    pub open spec fn registered(
        &self,
        before: &Self,
        r: Result<Var, ModelError>,
        cost: real,
        name: Option<Seq<char>>,
    ) -> bool {
        if before.phase() == State::VariableRegistration {
            &&& r matches Ok(var)
            &&& self.tokens() == before.tokens().push(var.token())
            &&& self.names() == before.names().push(name)
            &&& self.costs() == before.costs().push(cost)
            &&& self.values() == before.values().push(None)
            &&& self.phase() == before.phase()
            &&& self.label() == before.label()
            &&& self.sense() == before.sense()
            &&& self.rows() == before.rows()
            &&& self.grid() == before.grid()
            &&& self.best() == before.best()
        } else {
            &&& r matches Err(ModelError::PhaseClosed)
            &&& self.unchanged(before)
        }
    }

    /// Registers a variable with the given name, where a name is given, under a fresh
    /// token.
    fn reg_var_overload(&mut self, objective_value: T, name: Option<String>) -> (r: Result<
        Var,
        ModelError,
    >)
        requires
            old(self).wf(),
        ensures
            final(self).wf(),
            final(self).registered(
                old(self),
                r,
                objective_value.val(),
                match name {
                    Some(n) => Some(n@),
                    None => None,
                },
            ),
    {
        match self.state {
            State::VariableRegistration => {},
            _ => {
                return Err(ModelError::PhaseClosed);
            },
        }
        let token = fresh_token();
        self.variables.push(Variable { name, token, x: None, objective_value });
        proof {
            assert(self.tokens() =~= old(self).tokens().push(token));
            assert(self.names() =~= old(self).names().push(
                match name {
                    Some(n) => Some(n@),
                    None => None,
                },
            ));
            assert(self.costs() =~= old(self).costs().push(objective_value.val()));
            assert(self.values() =~= old(self).values().push(None));
        }
        Ok(Var { reference: token })
    }

    /// The place of the first variable with the token `token`.
    fn lookup(&self, token: u128) -> (r: Option<usize>)
        ensures
            match r {
                Some(i) => i == position(self.tokens(), token) && i < self.tokens().len()
                    && self.tokens()[i as int] == token,
                None => position(self.tokens(), token) == self.tokens().len()
                    && !self.tokens().contains(token),
            },
    {
        let n: usize = self.variables.len();
        let mut i: usize = 0;
        while i < n
            invariant
                n == self.variables@.len(),
                i <= n,
                forall|k: int| 0 <= k < i ==> self.tokens()[k] != token,
            decreases n - i,
        {
            if self.variables[i].token == token {
                proof {
                    assert(self.tokens()[i as int] == token);
                    lemma_position(self.tokens(), token);
                }
                return Some(i);
            }
            i += 1;
        }
        proof {
            lemma_position(self.tokens(), token);
        }
        None
    }

    /// Returns the optimal value for a given, registered variable. Fails with
    /// `UnknownVariable` where the variable is not registered for the calling
    /// [`Model`], and with `NotOptimized` where the model holds no value
    /// for it: it has not been optimized, or its objective has no bound. See
    /// [`optimize`](Model::optimize).
    pub fn x(&self, req: &Var) -> (r: Result<T, ModelError>)
        ensures
            ({
                let i = position(self.tokens(), req.token());
                if i == self.tokens().len() {
                    r matches Err(ModelError::UnknownVariable)
                } else {
                    match self.values()[i] {
                        Some(v) => r matches Ok(x) && x.val() == v,
                        None => r matches Err(ModelError::NotOptimized),
                    }
                }
            }),
    {
        match self.lookup(req.reference) {
            None => Err(ModelError::UnknownVariable),
            Some(i) => match &self.variables[i].x {
                Some(x) => Ok(x.duplicate()),
                None => Err(ModelError::NotOptimized),
            },
        }
    }

    /// Returns the optimal value. Fails with `NotOptimized` where the calling
    /// [`Model`] has not been optimized. See
    /// [`optimize`](Model::optimize).
    pub fn optimum(&self) -> (r: Result<Optimum<T>, ModelError>)
        ensures
            match self.best() {
                Some(o) => r matches Ok(v) && optimum_view(v) == o,
                None => r matches Err(ModelError::NotOptimized),
            },
    {
        match &self.optimum {
            Some(Optimum::Finite(v)) => Ok(Optimum::Finite(v.duplicate())),
            Some(Optimum::PlusInfinity) => Ok(Optimum::PlusInfinity),
            Some(Optimum::MinusInfinity) => Ok(Optimum::MinusInfinity),
            None => Err(ModelError::NotOptimized),
        }
    }

    /// What `unchanged_but_phase` says, but for the constraint rows.
    pub open spec fn unchanged_but_rows(&self, before: &Self) -> bool {
        &&& self.label() == before.label()
        &&& self.sense() == before.sense()
        &&& self.tokens() == before.tokens()
        &&& self.names() == before.names()
        &&& self.costs() == before.costs()
        &&& self.values() == before.values()
        &&& self.grid() == before.grid()
        &&& self.best() == before.best()
    }

    /// What registering the constraint `sum op b` makes of the model `before`, given the
    /// result `r` of the call. In the last phase the call fails with `PhaseClosed` and
    /// nothing changes. Else the model is in the phase for constraints afterwards. Where
    /// the sum names a variable that is not registered, the call fails with
    /// `UnknownVariable` and no row is added; else the standard rows of the constraint are
    /// added behind the others.
    pub open spec fn constrained(
        &self,
        before: &Self,
        r: Result<(), ModelError>,
        sum: Seq<(real, u128)>,
        op: Operator,
        b: real,
    ) -> bool {
        if before.phase() == State::PostRegistration {
            &&& r matches Err(ModelError::PhaseClosed)
            &&& self.unchanged(before)
        } else if !all_known(sum, before.tokens()) {
            &&& r matches Err(ModelError::UnknownVariable)
            &&& self.phase() == State::ConstraintRegistration
            &&& self.unchanged_but_phase(before)
        } else {
            &&& r matches Ok(_)
            &&& self.phase() == State::ConstraintRegistration
            &&& self.unchanged_but_rows(before)
            &&& self.rows() == before.rows() + standard_rows(
                dense_row(sum, before.tokens(), b),
                op,
            )
        }
    }

    /// Registers a constraint: the sum of the summands compared by `op` with `b`. Moves a
    /// model that still takes variables on to the phase for constraints. Fails with
    /// `PhaseClosed` where the constraints were already submitted, see
    /// [`update`](Model::update), and with `UnknownVariable` where one of the variables in
    /// `sum` is not registered for the calling [`Model`].
    pub fn reg_constr(&mut self, sum: Vec<Summand<T>>, op: Operator, b: T) -> (r: Result<
        (),
        ModelError,
    >)
        requires
            old(self).wf(),
        ensures
            final(self).wf(),
            final(self).constrained(old(self), r, sum_view(sum@), op, b.val()),
    {
        match self.state {
            State::PostRegistration => {
                return Err(ModelError::PhaseClosed);
            },
            State::VariableRegistration => {
                self.update();
            },
            State::ConstraintRegistration => {},
        }
        let ghost view = sum_view(sum@);
        let ghost tokens = self.tokens();
        let n: usize = sum.len();
        let mut i: usize = 0;
        while i < n
            invariant
                n == sum@.len(),
                view == sum_view(sum@),
                tokens == self.tokens(),
                tokens == old(self).tokens(),
                self.wf(),
                old(self).phase() != State::PostRegistration,
                self.phase() == State::ConstraintRegistration,
                self.unchanged_but_phase(old(self)),
                i <= n,
                forall|k: int| 0 <= k < i ==> tokens.contains(#[trigger] view[k].1),
            decreases n - i,
        {
            if self.lookup(sum[i].1.reference).is_none() {
                assert(!tokens.contains(view[i as int].1));
                return Err(ModelError::UnknownVariable);
            }
            i += 1;
        }
        let ghost rows = self.rows();
        match op {
            Operator::Ge => {
                let opposite = negated_summands(&sum);
                self.register_standard_constraint(&opposite, b.negated());
                proof {
                    lemma_negated_dense_row(view, tokens, b.val());
                    assert(self.rows() =~= rows + standard_rows(
                        dense_row(view, tokens, b.val()),
                        op,
                    ));
                }
            },
            Operator::E => {
                let opposite = negated_summands(&sum);
                let minus_b = b.negated();
                self.register_standard_constraint(&sum, b);
                self.register_standard_constraint(&opposite, minus_b);
                proof {
                    lemma_negated_dense_row(view, tokens, b.val());
                    assert(self.rows() =~= rows + standard_rows(
                        dense_row(view, tokens, b.val()),
                        op,
                    ));
                }
            },
            Operator::Le => {
                self.register_standard_constraint(&sum, b);
                proof {
                    assert(self.rows() =~= rows + standard_rows(
                        dense_row(view, tokens, b.val()),
                        op,
                    ));
                }
            },
        }
        Ok(())
    }

    /// Adds the dense row of the constraint `sum <= b` behind the other rows. The
    /// coefficient of a variable is the sum of the factors of the summands that name it.
    fn register_standard_constraint(&mut self, sum: &Vec<Summand<T>>, b: T)
        requires
            old(self).wf(),
            old(self).phase() != State::VariableRegistration,
        ensures
            final(self).wf(),
            final(self).phase() == old(self).phase(),
            final(self).unchanged_but_rows(old(self)),
            final(self).rows() == old(self).rows().push(
                dense_row(sum_view(sum@), old(self).tokens(), b.val()),
            ),
    {
        let ghost view = sum_view(sum@);
        let ghost tokens = self.tokens();
        let n: usize = self.variables.len();
        let k: usize = sum.len();
        let mut tmp: Vec<T> = Vec::new();
        let mut i: usize = 0;
        while i < n
            invariant
                n == self.variables@.len(),
                k == sum@.len(),
                view == sum_view(sum@),
                tokens == self.tokens(),
                i <= n,
                tmp@.len() == i,
                forall|c: int|
                    0 <= c < i ==> (#[trigger] tmp@[c]).val() == coefficient(
                        view,
                        tokens[c],
                        k as int,
                    ),
            decreases n - i,
        {
            let mut a = T::zero();
            let mut j: usize = 0;
            while j < k
                invariant
                    n == self.variables@.len(),
                    k == sum@.len(),
                    view == sum_view(sum@),
                    tokens == self.tokens(),
                    i < n,
                    j <= k,
                    a.val() == coefficient(view, tokens[i as int], j as int),
                decreases k - j,
            {
                if sum[j].1.reference == self.variables[i].token {
                    a = a.plus(&sum[j].0);
                }
                j += 1;
            }
            tmp.push(a);
            i += 1;
        }
        tmp.push(b);
        assert(row_view(tmp@) =~= dense_row(view, tokens, b.val()));
        self.constraints.push(tmp);
        proof {
            assert(self.rows() =~= old(self).rows().push(dense_row(view, tokens, b.val()))) by {
                assert forall|c: int| 0 <= c < old(self).rows().len() implies self.rows()[c] == old(
                    self,
                ).rows()[c] by {}
            }
        }
    }

    /// Everything but the tableau is in `self` as it is in `before`.
    pub open spec fn unchanged_but_grid(&self, before: &Self) -> bool {
        &&& self.phase() == before.phase()
        &&& self.label() == before.label()
        &&& self.sense() == before.sense()
        &&& self.tokens() == before.tokens()
        &&& self.names() == before.names()
        &&& self.costs() == before.costs()
        &&& self.values() == before.values()
        &&& self.rows() == before.rows()
        &&& self.best() == before.best()
    }

    /// The tableau on which the optimization of this model starts.
    pub open spec fn start(&self) -> Seq<Seq<real>> {
        built(signed_costs(self.costs(), self.sense()), self.rows())
    }

    /// Builds the initial tableau from the objective coefficients, negated where the model
    /// minimizes, and the standard rows, with one slack column for each row.
    pub fn init_tableau(&mut self)
        requires
            old(self).wf(),
        ensures
            final(self).wf(),
            final(self).unchanged_but_grid(old(self)),
            final(self).grid() == old(self).start(),
    {
        let ghost costs = signed_costs(self.costs(), self.sense());
        let ghost rows = self.rows();
        proof {
            self.lemma_shape();
        }
        let n: usize = self.variables.len();
        let m: usize = self.constraints.len();
        let mut tableau: Vec<Vec<T>> = Vec::new();
        let mut tmp: Vec<T> = Vec::new();
        let mut j: usize = 0;
        while j < n
            invariant
                n == self.variables@.len(),
                costs == signed_costs(self.costs(), self.sense()),
                j <= n,
                tmp@.len() == j,
                forall|c: int| 0 <= c < j ==> (#[trigger] tmp@[c]).val() == costs[c],
            decreases n - j,
        {
            match self.objective {
                Objective::Max => {
                    tmp.push(self.variables[j].objective_value.duplicate());
                },
                Objective::Min => {
                    tmp.push(self.variables[j].objective_value.negated());
                },
            }
            j += 1;
        }
        let mut c: usize = 0;
        while c < m
            invariant
                c <= m,
                tmp@.len() == n + c,
                forall|k: int| 0 <= k < n ==> (#[trigger] tmp@[k]).val() == costs[k],
                forall|k: int| n <= k < n + c ==> (#[trigger] tmp@[k]).val() == 0real,
            decreases m - c,
        {
            tmp.push(T::zero());
            c += 1;
        }
        tmp.push(T::zero());
        tableau.push(tmp);
        let mut i: usize = 0;
        while i < m
            invariant
                self.wf(),
                n == self.variables@.len(),
                m == self.constraints@.len(),
                rows == self.rows(),
                costs.len() == n,
                rows.len() == m,
                i <= m,
                tableau@.len() == i + 1,
                forall|a: int| 0 <= a <= i ==> (#[trigger] tableau@[a])@.len() == n + m + 1,
                forall|a: int, k: int|
                    0 <= a <= i && 0 <= k <= n + m ==> (#[trigger] tableau@[a]@[k]).val()
                        == built_entry(costs, rows, a, k),
            decreases m - i,
        {
            let mut tmp: Vec<T> = Vec::new();
            let mut j: usize = 0;
            while j < n
                invariant
                    n == self.variables@.len(),
                    m == self.constraints@.len(),
                    rows == self.rows(),
                    costs.len() == n,
                    rows.len() == m,
                    i < m,
                    self.constraints@[i as int]@.len() == n + 1,
                    j <= n,
                    tmp@.len() == j,
                    forall|k: int|
                        0 <= k < j ==> (#[trigger] tmp@[k]).val() == built_entry(
                            costs,
                            rows,
                            i + 1,
                            k,
                        ),
                decreases n - j,
            {
                tmp.push(self.constraints[i][j].duplicate());
                j += 1;
            }
            let mut c: usize = 0;
            while c < m
                invariant
                    costs.len() == n,
                    rows.len() == m,
                    i < m,
                    c <= m,
                    tmp@.len() == n + c,
                    forall|k: int|
                        0 <= k < n + c ==> (#[trigger] tmp@[k]).val() == built_entry(
                            costs,
                            rows,
                            i + 1,
                            k,
                        ),
                decreases m - c,
            {
                if c == i {
                    tmp.push(T::one());
                } else {
                    tmp.push(T::zero());
                }
                c += 1;
            }
            tmp.push(self.constraints[i][n].duplicate());
            tableau.push(tmp);
            i += 1;
        }
        self.tableau = tableau;
        proof {
            let f = self.grid();
            let p = built(costs, rows);
            assert forall|a: int| 0 <= a < f.len() implies #[trigger] f[a] == p[a] by {
                assert forall|k: int| 0 <= k <= n + m implies f[a][k] == p[a][k] by {}
            }
        }
    }

    /// The optimal value as the model reports it for the value `value` that the tableau
    /// gave: the value itself where the model maximizes, its opposite where it minimizes.
    pub open spec fn reported(sense: Objective, value: Optimum<real>) -> Optimum<real> {
        match sense {
            Objective::Max => value,
            Objective::Min => opposite(value),
        }
    }

    /// What optimizing makes of the model `before`, given the result `r` of the call. A
    /// model that holds an optimal value stays as it is. Any other is in the last phase
    /// afterwards, holds the tableau on which the solve of its initial tableau ended, and
    /// - after an optimal end: the value read off that tableau, and for every variable the
    ///   value read off its column;
    /// - after an unbounded end: an infinite value and no values for the variables;
    /// - else: the error, no value and no values for the variables.
    pub open spec fn optimized(&self, before: &Self, r: Result<(), ModelError>) -> bool {
        if before.best() is Some {
            r is Ok && self.unchanged(before)
        } else {
            let solved = solve_outcome(before.start(), None, PIVOT_LIMIT as nat);
            &&& self.phase() == State::PostRegistration
            &&& self.label() == before.label()
            &&& self.sense() == before.sense()
            &&& self.tokens() == before.tokens()
            &&& self.names() == before.names()
            &&& self.costs() == before.costs()
            &&& self.rows() == before.rows()
            &&& self.grid() == solved.1
            &&& match solved.0 {
                Outcome::Optimal { solution, value } => {
                    &&& r is Ok
                    &&& self.best() == Some(Self::reported(before.sense(), Optimum::Finite(value)))
                    &&& self.values() == Seq::new(
                        before.tokens().len(),
                        |j: int| Some(column_value(solved.1, j)),
                    )
                },
                Outcome::Unbounded => {
                    &&& r is Ok
                    &&& self.best() == Some(Self::reported(before.sense(), Optimum::PlusInfinity))
                    &&& self.values() == before.values()
                },
                Outcome::Infeasible => {
                    &&& r matches Err(ModelError::Infeasible)
                    &&& self.best() is None
                    &&& self.values() == before.values()
                },
                Outcome::Degenerate => {
                    &&& r matches Err(ModelError::Degenerate)
                    &&& self.best() is None
                    &&& self.values() == before.values()
                },
                Outcome::Exhausted => {
                    &&& r matches Err(ModelError::PivotLimit)
                    &&& self.best() is None
                    &&& self.values() == before.values()
                },
            }
        }
    }

    /// Optimizes the [`Model`], and submits what was registered where
    /// that is still open. Fails with `Infeasible` where no point satisfies the constraints,
    /// with `Degenerate` where a ratio test has two rows with the same smallest ratio, and
    /// with `PivotLimit` where a run of the optimize loop uses up its pivots.
    pub fn optimize(&mut self) -> (r: Result<(), ModelError>)
        requires
            old(self).wf(),
        ensures
            final(self).wf(),
            final(self).optimized(old(self), r),
    {
        if self.optimum.is_some() {
            return Ok(());
        }
        self.update();
        self.update();
        self.init_tableau();
        proof {
            self.lemma_shape();
        }
        let ghost start = self.grid();
        assert(rectangular(start)) by {
            assert forall|i: int| 0 <= i < start.len() implies (#[trigger] start[i]).len()
                == start[0].len() by {}
        }
        let solved = solve(&mut self.tableau, None);
        match solved {
            Err(SolveError::Infeasible) => Err(ModelError::Infeasible),
            Err(SolveError::Degenerate) => Err(ModelError::Degenerate),
            Err(SolveError::PivotLimit) => Err(ModelError::PivotLimit),
            Ok((solution, value)) => {
                let best = match self.objective {
                    Objective::Max => value,
                    Objective::Min => value.negated(),
                };
                self.optimum = Some(best);
                match solution {
                    Some(hash_map) => {
                        self.assign(&hash_map);
                    },
                    None => {},
                }
                Ok(())
            },
        }
    }

    /// Gives every variable the value that `solution` holds for its place, or zero where
    /// it holds none.
    fn assign(&mut self, solution: &HashMap<usize, T>)
        requires
            map_view(solution@) == extracted(old(self).grid(), old(self).tokens().len() as int),
            old(self).optimum is Some,
        ensures
            final(self).phase() == old(self).phase(),
            final(self).label() == old(self).label(),
            final(self).sense() == old(self).sense(),
            final(self).tokens() == old(self).tokens(),
            final(self).names() == old(self).names(),
            final(self).costs() == old(self).costs(),
            final(self).rows() == old(self).rows(),
            final(self).grid() == old(self).grid(),
            final(self).best() == old(self).best(),
            final(self).constraints == old(self).constraints,
            final(self).variables@.len() == old(self).variables@.len(),
            final(self).values() == Seq::new(
                old(self).tokens().len(),
                |j: int| Some(column_value(old(self).grid(), j)),
            ),
    {
        let ghost end = self.grid();
        broadcast use vstd::std_specs::hash::group_hash_axioms;

        let n: usize = self.variables.len();
        let mut j: usize = 0;
        while j < n
            invariant
                n == self.variables@.len(),
                n == old(self).variables@.len(),
                map_view(solution@) == extracted(end, n as int),
                j <= n,
                self.name == old(self).name,
                self.state == old(self).state,
                self.objective == old(self).objective,
                self.constraints == old(self).constraints,
                self.tableau == old(self).tableau,
                self.optimum == old(self).optimum,
                forall|k: int|
                    0 <= k < n ==> (#[trigger] self.variables@[k]).token == old(
                        self,
                    ).variables@[k].token && self.variables@[k].name == old(
                        self,
                    ).variables@[k].name && self.variables@[k].objective_value == old(
                        self,
                    ).variables@[k].objective_value,
                forall|k: int|
                    0 <= k < j ==> ((#[trigger] self.variables@[k]).x matches Some(v) && v.val()
                        == column_value(end, k)),
            decreases n - j,
        {
            let value = match solution.get(&j) {
                Some(x) => x.duplicate(),
                None => T::zero(),
            };
            proof {
                assert(extracted(end, n as int).contains_key(j) == solution@.contains_key(j));
                if solution@.contains_key(j) {
                    assert(map_view(solution@)[j] == solution@[j].val());
                }
            }
            self.variables[j].x = Some(value);
            j += 1;
        }
        proof {
            assert(self.values() =~= Seq::new(
                old(self).tokens().len(),
                |j: int| Some(column_value(end, j)),
            ));
        }
    }

    /// After an optimization that gave the model a finite optimal value, no
    /// feasible point of the program that the model held does better: none has a larger
    /// objective where the model maximizes, none a smaller where it minimizes.
    pub proof fn lemma_optimum_is_best(&self, before: &Self, v: real, x: Seq<real>)
        requires
            before.wf(),
            before.best() is None,
            self.optimized(before, Ok(())),
            self.best() == Some(Optimum::Finite(v)),
            x.len() == before.costs().len(),
            feasible(before.rows(), x),
        ensures
            before.sense() == Objective::Max ==> dot(before.costs(), x, x.len() as int) <= v,
            before.sense() == Objective::Min ==> dot(before.costs(), x, x.len() as int) >= v,
    {
        before.lemma_shape();
        let costs = signed_costs(before.costs(), before.sense());
        lemma_no_feasible_point_is_better(costs, before.rows(), PIVOT_LIMIT as nat, x);
        if before.sense() == Objective::Min {
            lemma_negated_dot(before.costs(), x, x.len() as int);
        }
    }

    /// An optimization fails as infeasible only where the program that the
    /// model held has no feasible point.
    pub proof fn lemma_infeasible_means_no_point(&self, before: &Self, x: Seq<real>)
        requires
            before.wf(),
            before.best() is None,
            self.optimized(before, Err(ModelError::Infeasible)),
            x.len() == before.costs().len(),
        ensures
            !feasible(before.rows(), x),
    {
        before.lemma_shape();
        let costs = signed_costs(before.costs(), before.sense());
        if feasible(before.rows(), x) {
            lemma_infeasible_has_no_point(costs, before.rows(), PIVOT_LIMIT as nat, x);
        }
    }

    /// After an optimization that gave the model a finite optimal
    /// value and ended on a tableau in canonical form, the values of the variables are a
    /// feasible point of the program that the model held, and the objective at that point
    /// is the optimal value.
    pub proof fn lemma_values_are_feasible(&self, before: &Self, v: real)
        requires
            before.wf(),
            before.best() is None,
            self.optimized(before, Ok(())),
            self.best() == Some(Optimum::Finite(v)),
            canonical(self.grid()),
        ensures
            forall|j: int| 0 <= j < self.values().len() ==> (#[trigger] self.values()[j]) is Some,
            feasible(before.rows(), self.point()),
            dot(before.costs(), self.point(), before.costs().len() as int) == v,
    {
        before.lemma_shape();
        let costs = signed_costs(before.costs(), before.sense());
        lemma_reported_point_is_feasible(costs, before.rows(), PIVOT_LIMIT as nat);
        let solved = solve_outcome(before.start(), None, PIVOT_LIMIT as nat);
        assert(self.point() =~= read_off(solved.1, costs.len() as int));
        if before.sense() == Objective::Min {
            lemma_negated_dot(before.costs(), self.point(), before.costs().len() as int);
        }
    }

    /// The values of the variables as a point: zero for a variable without a value.
    pub open spec fn point(&self) -> Seq<real> {
        Seq::new(
            self.values().len(),
            |j: int|
                match self.values()[j] {
                    Some(v) => v,
                    None => 0real,
                },
        )
    }

    /// The model's name.
    pub fn name(&self) -> (r: &String)
        ensures
            r@ == self.label(),
    {
        &self.name
    }

    /// Whether the model maximizes or minimizes.
    pub fn objective(&self) -> (r: Objective)
        ensures
            r == self.sense(),
    {
        self.objective
    }

    /// The number of registered variables.
    pub fn variable_count(&self) -> (r: usize)
        ensures
            r == self.tokens().len(),
    {
        self.variables.len()
    }

    /// The number of standard rows that the registered constraints gave.
    pub fn constraint_count(&self) -> (r: usize)
        ensures
            r == self.rows().len(),
    {
        self.constraints.len()
    }

    /// The token of the variable in place `index`.
    pub fn variable_reference(&self, index: usize) -> (r: u128)
        requires
            index < self.tokens().len(),
        ensures
            r == self.tokens()[index as int],
    {
        self.variables[index].token
    }

    /// The name of the variable in place `index`, where it has one.
    pub fn variable_name(&self, index: usize) -> (r: Option<&String>)
        requires
            index < self.tokens().len(),
        ensures
            match r {
                Some(n) => self.names()[index as int] == Some(n@),
                None => self.names()[index as int] is None,
            },
    {
        self.variables[index].name.as_ref()
    }

    /// The objective coefficient of the variable in place `index`.
    pub fn variable_objective(&self, index: usize) -> (r: T)
        requires
            index < self.tokens().len(),
        ensures
            r.val() == self.costs()[index as int],
    {
        self.variables[index].objective_value.duplicate()
    }

    /// The value of the variable in place `index`, where the model holds one.
    pub fn variable_value(&self, index: usize) -> (r: Option<T>)
        requires
            index < self.tokens().len(),
        ensures
            match r {
                Some(v) => self.values()[index as int] == Some(v.val()),
                None => self.values()[index as int] is None,
            },
    {
        match &self.variables[index].x {
            Some(v) => Some(v.duplicate()),
            None => None,
        }
    }

    /// The coefficient or, in the last place, the right-hand side that the standard row
    /// `row` holds in place `column`.
    pub fn constraint_entry(&self, row: usize, column: usize) -> (r: T)
        requires
            self.wf(),
            row < self.rows().len(),
            column <= self.tokens().len(),
        ensures
            r.val() == self.rows()[row as int][column as int],
    {
        self.constraints[row][column].duplicate()
    }

    /// Whether the model holds a tableau, and the tableau is in canonical form at the point
    /// read off it: every constraint row whose right-hand side is not zero has exactly one
    /// clean basic column, and every clean basic column has a zero in the objective row or
    /// the value zero. After an optimization that gave a finite optimal value, the values
    /// of the variables are then a feasible point at which the objective is that value.
    pub fn is_canonical(&self) -> (r: bool)
        ensures
            r == (rectangular(self.grid()) && canonical(self.grid())),
    {
        is_rectangular(&self.tableau) && is_canonical(&self.tableau)
    }

    /// The number of rows of the tableau that the model holds.
    pub fn tableau_rows(&self) -> (r: usize)
        ensures
            r == self.grid().len(),
    {
        self.tableau.len()
    }

    /// The number of columns of row `row` of the tableau that the model holds.
    pub fn tableau_columns(&self, row: usize) -> (r: usize)
        requires
            row < self.grid().len(),
        ensures
            r == self.grid()[row as int].len(),
    {
        self.tableau[row].len()
    }

    /// The entry of the tableau that the model holds in row `row` and column `column`.
    pub fn tableau_entry(&self, row: usize, column: usize) -> (r: T)
        requires
            row < self.grid().len(),
            column < self.grid()[row as int].len(),
        ensures
            r.val() == self.grid()[row as int][column as int],
    {
        self.tableau[row][column].duplicate()
    }
}

/// The summands of `sum` with every factor negated.
fn negated_summands<'a, T: Scalar>(sum: &Vec<Summand<'a, T>>) -> (r: Vec<Summand<'a, T>>)
    ensures
        sum_view(r@) == negated_sum(sum_view(sum@)),
{
    let n: usize = sum.len();
    let mut r: Vec<Summand<'a, T>> = Vec::new();
    let mut i: usize = 0;
    while i < n
        invariant
            n == sum@.len(),
            i <= n,
            r@.len() == i,
            forall|k: int|
                0 <= k < i ==> (#[trigger] r@[k]).0.val() == -sum@[k].0.val() && r@[k].1.token()
                    == sum@[k].1.token(),
        decreases n - i,
    {
        r.push(Summand(sum[i].0.negated(), sum[i].1));
        i += 1;
    }
    r
}

} // verus!
