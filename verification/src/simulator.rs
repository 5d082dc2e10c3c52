//! From a grid to the plan of a simulation: check the grid, read it as a
//! circuit, and follow the register through the circuit step by step.
//!
//! The plan says, for every step, what is to be done to the amplitudes and
//! how the qubits are clustered once it is done. Carrying the plan out on
//! amplitude vectors is left to the caller: it takes one complex product per
//! merged amplitude and one small matrix product per orbit.

use crate::basis::natural_rows;
use crate::circuit_parser::{
    circuit_is_paired, circuit_steps, column, lemma_column_operations_fit, parse_circuit,
    Operation, OperationModel, UnparsedCircuit,
};
use crate::circuit_validator::{all_tokens_valid, validate_grid_input, validation_result};
use crate::error::QuantumCircuitError;
use crate::evolution::{
    carried_out_all, fresh_register, lemma_carried_out_in_turn, lemma_fresh_register_matches,
    lemma_operation_keeps_length_one, state_matches, ExactCluster,
};
use crate::gate::{is_valid_token, MAX_QUBITS};
use crate::quantum_state::{
    actions_for, initial_layout, layout_after, layout_is_valid, lemma_initial_layout_valid,
    lemma_operation_keeps_valid, Action, ActionModel, ClusterLayout,
};
use vstd::prelude::*;

verus! {

/// One step of a simulation.
#[derive(Debug, PartialEq, Eq)]
pub struct StepPlan {
    /// What the step's operations ask of the amplitudes, in order.
    pub actions: Vec<Action>,
    /// The qubit lists of the clusters once the step is done, in cluster
    /// order: the shape of the snapshot to take.
    pub clusters: Vec<Vec<usize>>,
}

/// A step of a simulation as a mathematical value.
pub struct StepPlanModel {
    pub actions: Seq<ActionModel>,
    pub clusters: Seq<Seq<nat>>,
}

impl View for StepPlan {
    type V = StepPlanModel;

    open spec fn view(&self) -> StepPlanModel {
        StepPlanModel {
            actions: self.actions.deep_view(),
            clusters: natural_rows(self.clusters@),
        }
    }
}

impl DeepView for StepPlan {
    type V = StepPlanModel;

    open spec fn deep_view(&self) -> StepPlanModel {
        self@
    }
}

/// Every operation of the list fits a register of `qubits` qubits.
pub open spec fn all_fit(operations: Seq<OperationModel>, qubits: nat) -> bool {
    forall|i: int| 0 <= i < operations.len() ==> (#[trigger] operations[i]).fits(qubits)
}

/// The layout after the operations of a list, taken in order.
pub open spec fn layout_after_all(layout: Seq<Seq<nat>>, operations: Seq<OperationModel>) -> Seq<
    Seq<nat>,
>
    decreases operations.len(),
{
    if operations.len() == 0 {
        layout
    } else {
        layout_after(layout_after_all(layout, operations.drop_last()), operations.last())
    }
}

/// What the operations of a list, taken in order, ask of the amplitudes of
/// a register that starts with the given layout.
pub open spec fn actions_for_all(layout: Seq<Seq<nat>>, operations: Seq<OperationModel>) -> Seq<
    ActionModel,
>
    decreases operations.len(),
{
    if operations.len() == 0 {
        Seq::empty()
    } else {
        actions_for_all(layout, operations.drop_last()) + actions_for(
            layout_after_all(layout, operations.drop_last()),
            operations.last(),
        )
    }
}

/// The layout of a register of `qubits` qubits after the steps of a list.
pub open spec fn layout_after_steps(qubits: nat, steps: Seq<Seq<OperationModel>>) -> Seq<Seq<nat>>
    decreases steps.len(),
{
    if steps.len() == 0 {
        initial_layout(qubits)
    } else {
        layout_after_all(layout_after_steps(qubits, steps.drop_last()), steps.last())
    }
}

/// The plan of step `index` of a circuit on a fresh register of `qubits`
/// qubits.
pub open spec fn step_plan(qubits: nat, steps: Seq<Seq<OperationModel>>, index: int) -> StepPlanModel {
    let before = layout_after_steps(qubits, steps.take(index));
    StepPlanModel {
        actions: actions_for_all(before, steps[index]),
        clusters: layout_after_all(before, steps[index]),
    }
}

/// The plans of all steps of a circuit on a fresh register of `qubits`
/// qubits, one per step and in step order.
pub open spec fn circuit_plans(qubits: nat, steps: Seq<Seq<OperationModel>>) -> Seq<StepPlanModel> {
    Seq::new(steps.len(), |index: int| step_plan(qubits, steps, index))
}

/// What simulating a grid gives: the first complaint of the validator, else
/// `InvalidGate` if a multi-row token lacks its partner, else the plans of
/// the circuit's steps, one per column.
pub open spec fn simulation_result(grid: Seq<Seq<Seq<char>>>) -> Result<
    Seq<StepPlanModel>,
    QuantumCircuitError,
> {
    match validation_result(grid) {
        Err(error) => Err(error),
        Ok(_) => if circuit_is_paired(grid) {
            Ok(circuit_plans(grid.len(), circuit_steps(grid)))
        } else {
            Err(QuantumCircuitError::InvalidGate)
        },
    }
}

/// Operations that fit keep a valid layout valid, and never add a cluster.
pub proof fn lemma_layout_stays_valid(
    layout: Seq<Seq<nat>>,
    qubits: nat,
    operations: Seq<OperationModel>,
)
    requires
        layout_is_valid(layout, qubits),
        all_fit(operations, qubits),
    ensures
        layout_is_valid(layout_after_all(layout, operations), qubits),
        layout_after_all(layout, operations).len() <= layout.len(),
    decreases operations.len(),
{
    if operations.len() > 0 {
        let earlier = operations.drop_last();
        assert forall|i: int| 0 <= i < earlier.len() implies (#[trigger] earlier[i]).fits(qubits) by {
            assert(earlier[i] == operations[i]);
        }
        lemma_layout_stays_valid(layout, qubits, earlier);
        lemma_operation_keeps_valid(layout_after_all(layout, earlier), qubits, operations.last());
    }
}

/// Steps whose operations all fit keep the register validly laid out.
pub proof fn lemma_steps_keep_valid(qubits: nat, steps: Seq<Seq<OperationModel>>)
    requires
        qubits <= MAX_QUBITS,
        forall|c: int| 0 <= c < steps.len() ==> all_fit(#[trigger] steps[c], qubits),
    ensures
        layout_is_valid(layout_after_steps(qubits, steps), qubits),
    decreases steps.len(),
{
    if steps.len() == 0 {
        lemma_initial_layout_valid(qubits);
    } else {
        let earlier = steps.drop_last();
        assert forall|c: int| 0 <= c < earlier.len() implies all_fit(#[trigger] earlier[c], qubits) by {
            assert(earlier[c] == steps[c]);
        }
        lemma_steps_keep_valid(qubits, earlier);
        lemma_layout_stays_valid(layout_after_steps(qubits, earlier), qubits, steps.last());
    }
}

/// A grid that simulates gives one plan per column, and after every step the
/// clusters split the qubits of the register among them.
pub proof fn lemma_simulation_shape(grid: Seq<Seq<Seq<char>>>)
    requires
        simulation_result(grid) is Ok,
    ensures
        simulation_result(grid).unwrap().len() == grid[0].len(),
        forall|c: int|
            0 <= c < grid[0].len() ==> layout_is_valid(
                (#[trigger] simulation_result(grid).unwrap()[c]).clusters,
                grid.len(),
            ),
{
    let steps = circuit_steps(grid);
    let plans = simulation_result(grid).unwrap();
    lemma_circuit_operations_fit(grid);
    assert forall|c: int| 0 <= c < grid[0].len() implies layout_is_valid(
        (#[trigger] plans[c]).clusters,
        grid.len(),
    ) by {
        let earlier = steps.take(c);
        assert forall|k: int| 0 <= k < earlier.len() implies all_fit(
            #[trigger] earlier[k],
            grid.len(),
        ) by {
            assert(earlier[k] == steps[k]);
        }
        lemma_steps_keep_valid(grid.len(), earlier);
        lemma_layout_stays_valid(layout_after_steps(grid.len(), earlier), grid.len(), steps[c]);
    }
}

/// A grid simulates exactly if it passes validation and every multi-row
/// token has its partner. Otherwise the error is the validator's, if it has
/// one, and `InvalidGate` if not.
pub proof fn lemma_simulation_succeeds(grid: Seq<Seq<Seq<char>>>)
    ensures
        simulation_result(grid) is Ok <==> validation_result(grid) is Ok && circuit_is_paired(grid),
        validation_result(grid) is Err ==> simulation_result(grid) == Err::<
            Seq<StepPlanModel>,
            QuantumCircuitError,
        >(validation_result(grid)->Err_0),
        validation_result(grid) is Ok && !circuit_is_paired(grid) ==> simulation_result(grid)
            == Err::<Seq<StepPlanModel>, QuantumCircuitError>(QuantumCircuitError::InvalidGate),
{
}

/// The exact clusters of a fresh register of `qubits` qubits after the first
/// `count` plans are carried out on it.
pub open spec fn exact_snapshot(qubits: nat, plans: Seq<StepPlanModel>, count: int) -> Seq<
    ExactCluster,
>
    decreases count,
{
    if count <= 0 {
        fresh_register(qubits)
    } else {
        carried_out_all(exact_snapshot(qubits, plans, count - 1), plans[count - 1].actions)
    }
}

/// The operations of a step, carried out on clusters that match the layout,
/// leave clusters that match the layout after the step.
pub proof fn lemma_step_keeps_length_one(
    state: Seq<ExactCluster>,
    layout: Seq<Seq<nat>>,
    qubits: nat,
    operations: Seq<OperationModel>,
)
    requires
        layout_is_valid(layout, qubits),
        all_fit(operations, qubits),
        state_matches(state, layout),
    ensures
        state_matches(
            carried_out_all(state, actions_for_all(layout, operations)),
            layout_after_all(layout, operations),
        ),
    decreases operations.len(),
{
    if operations.len() > 0 {
        let earlier = operations.drop_last();
        assert forall|i: int| 0 <= i < earlier.len() implies (#[trigger] earlier[i]).fits(qubits) by {
            assert(earlier[i] == operations[i]);
        }
        lemma_step_keeps_length_one(state, layout, qubits, earlier);
        lemma_layout_stays_valid(layout, qubits, earlier);
        let between = layout_after_all(layout, earlier);
        lemma_operation_keeps_length_one(
            carried_out_all(state, actions_for_all(layout, earlier)),
            between,
            qubits,
            operations.last(),
        );
        lemma_carried_out_in_turn(
            state,
            actions_for_all(layout, earlier),
            actions_for(between, operations.last()),
        );
    }
}

/// After any number of steps of a circuit whose operations fit, the exact
/// clusters match the layout.
pub proof fn lemma_plans_keep_length_one(qubits: nat, steps: Seq<Seq<OperationModel>>, count: int)
    requires
        qubits <= MAX_QUBITS,
        forall|c: int| 0 <= c < steps.len() ==> all_fit(#[trigger] steps[c], qubits),
        0 <= count <= steps.len(),
    ensures
        state_matches(
            exact_snapshot(qubits, circuit_plans(qubits, steps), count),
            layout_after_steps(qubits, steps.take(count)),
        ),
    decreases count,
{
    if count == 0 {
        lemma_fresh_register_matches(qubits);
    } else {
        let earlier = steps.take(count - 1);
        lemma_plans_keep_length_one(qubits, steps, count - 1);
        assert forall|c: int| 0 <= c < earlier.len() implies all_fit(#[trigger] earlier[c], qubits) by {
            assert(earlier[c] == steps[c]);
        }
        lemma_steps_keep_valid(qubits, earlier);
        assert(steps.take(count).drop_last() =~= earlier);
        assert(steps.take(count).last() == steps[count - 1]);
        lemma_step_keeps_length_one(
            exact_snapshot(qubits, circuit_plans(qubits, steps), count - 1),
            layout_after_steps(qubits, earlier),
            qubits,
            steps[count - 1],
        );
    }
}

/// Unitarity, in exact arithmetic: carried out on a fresh register, the
/// plans of a grid that simulates leave, after every step, one cluster of
/// amplitudes for every cluster of the step's snapshot, with one amplitude
/// for every basis state of its qubits and an amplitude vector of length
/// one.
pub proof fn lemma_simulation_keeps_length_one(grid: Seq<Seq<Seq<char>>>)
    requires
        simulation_result(grid) is Ok,
    ensures
        forall|c: int|
            0 <= c < simulation_result(grid).unwrap().len() ==> state_matches(
                exact_snapshot(grid.len(), simulation_result(grid).unwrap(), c + 1),
                (#[trigger] simulation_result(grid).unwrap()[c]).clusters,
            ),
{
    let steps = circuit_steps(grid);
    let plans = simulation_result(grid).unwrap();
    lemma_circuit_operations_fit(grid);
    assert forall|c: int| 0 <= c < plans.len() implies state_matches(
        exact_snapshot(grid.len(), plans, c + 1),
        (#[trigger] plans[c]).clusters,
    ) by {
        lemma_plans_keep_length_one(grid.len(), steps, c + 1);
        assert(steps.take(c + 1).drop_last() =~= steps.take(c));
        assert(steps.take(c + 1).last() == steps[c]);
    }
}

/// Takes the operations of one step into account, in order, and returns the
/// step's plan.
pub fn run_step(layout: &mut ClusterLayout, operations: &Vec<Operation>) -> (plan: StepPlan)
    requires
        old(layout).wf(),
        all_fit(operations.deep_view(), old(layout).qubit_count()),
    ensures
        final(layout).wf(),
        final(layout).qubit_count() == old(layout).qubit_count(),
        final(layout)@ == layout_after_all(old(layout)@, operations.deep_view()),
        plan@.actions == actions_for_all(old(layout)@, operations.deep_view()),
        plan@.clusters == final(layout)@,
{
    let ghost start = layout@;
    let ghost models = operations.deep_view();
    let mut actions: Vec<Action> = Vec::new();
    let mut i: usize = 0;
    assert(actions.deep_view() =~= Seq::<ActionModel>::empty());
    while i < operations.len()
        invariant
            i <= operations.len(),
            models == operations.deep_view(),
            layout.wf(),
            layout.qubit_count() == old(layout).qubit_count(),
            all_fit(models, layout.qubit_count()),
            layout@ == layout_after_all(start, models.take(i as int)),
            actions.deep_view() == actions_for_all(start, models.take(i as int)),
        decreases operations.len() - i,
    {
        let ghost done = actions.deep_view();
        assert(models.take(i + 1).drop_last() =~= models.take(i as int));
        assert(models.take(i + 1).last() == operations[i as int]@);
        assert(models[i as int].fits(layout.qubit_count()));
        let mut more = layout.apply(&operations[i]);
        let ghost added = more.deep_view();
        actions.append(&mut more);
        assert(actions.deep_view() =~= done + added);
        i += 1;
    }
    assert(models.take(operations.len() as int) =~= models);
    let clusters = layout.snapshot();
    StepPlan { actions, clusters }
}

/// Follows a fresh register of `qubits` qubits through a circuit and returns
/// the plan of every step, in step order.
pub fn run_circuit(qubits: usize, steps: &Vec<Vec<Operation>>) -> (plans: Vec<StepPlan>)
    requires
        qubits <= MAX_QUBITS,
        forall|c: int| 0 <= c < steps.len() ==> all_fit(#[trigger] steps.deep_view()[c], qubits as nat),
    ensures
        plans.deep_view() == circuit_plans(qubits as nat, steps.deep_view()),
        plans.len() == steps.len(),
{
    let ghost models = steps.deep_view();
    let mut layout = ClusterLayout::initialize(qubits);
    let mut plans: Vec<StepPlan> = Vec::new();
    let mut c: usize = 0;
    while c < steps.len()
        invariant
            c <= steps.len(),
            models == steps.deep_view(),
            layout.wf(),
            layout.qubit_count() == qubits,
            forall|k: int| 0 <= k < steps.len() ==> all_fit(#[trigger] models[k], qubits as nat),
            layout@ == layout_after_steps(qubits as nat, models.take(c as int)),
            plans.len() == c,
            forall|k: int| 0 <= k < c ==> (#[trigger] plans[k])@ == step_plan(qubits as nat, models, k),
        decreases steps.len() - c,
    {
        assert(models.take(c + 1).drop_last() =~= models.take(c as int));
        assert(models.take(c + 1).last() == models[c as int]);
        assert(steps[c as int].deep_view() == models[c as int]);
        let plan = run_step(&mut layout, &steps[c]);
        plans.push(plan);
        c += 1;
    }
    assert(plans.deep_view() =~= circuit_plans(qubits as nat, models));
    plans
}

/// Every operation of a checked and paired grid fits a register with one
/// qubit per row.
pub proof fn lemma_circuit_operations_fit(grid: Seq<Seq<Seq<char>>>)
    requires
        validation_result(grid) is Ok,
        circuit_is_paired(grid),
    ensures
        forall|c: int|
            0 <= c < circuit_steps(grid).len() ==> all_fit(
                #[trigger] circuit_steps(grid)[c],
                grid.len(),
            ),
{
    assert forall|c: int| 0 <= c < circuit_steps(grid).len() implies all_fit(
        #[trigger] circuit_steps(grid)[c],
        grid.len(),
    ) by {
        let col = column(grid, c);
        assert forall|r: int| 0 <= r < col.len() implies is_valid_token(#[trigger] col[r]) by {
            assert(all_tokens_valid(grid[r]));
            assert(grid[r].len() == grid[0].len());
        }
        lemma_column_operations_fit(col);
    }
}

/// Simulates the circuit that a grid stands for: checks the grid, reads it
/// as a circuit, and follows a fresh register with one qubit per row through
/// it. Returns one plan per column, or the first error met and no plan.
pub fn simulate(grid: &UnparsedCircuit) -> (result: Result<Vec<StepPlan>, QuantumCircuitError>)
    ensures
        match result {
            Ok(plans) => simulation_result(grid@) == Ok::<Seq<StepPlanModel>, QuantumCircuitError>(
                plans.deep_view(),
            ),
            Err(error) => simulation_result(grid@) == Err::<Seq<StepPlanModel>, QuantumCircuitError>(
                error,
            ),
        },
        result is Ok ==> result.unwrap().len() == grid@[0].len(),
{
    match validate_grid_input(grid) {
        Err(error) => {
            return Err(error);
        },
        Ok(_) => {},
    }
    let steps = match parse_circuit(grid) {
        Err(error) => {
            return Err(error);
        },
        Ok(steps) => steps,
    };
    proof {
        lemma_circuit_operations_fit(grid@);
    }
    let plans = run_circuit(grid.circuit.len(), &steps);
    Ok(plans)
}

} // verus!
