//! Replaying a schedule on the starting stock: step by step, or batch by
//! batch with the time that the batches take.

use vstd::prelude::*;
use crate::ast::{Process, ProcessView, Simulation, SimulationView};
use crate::check::{apply_spec, manage_resources};
use crate::error::{Error, Failure};
use crate::inventory::{Inventory, Stock};
use crate::solver::{
    batchify,
    batchify_spec,
    production_view,
    resolve,
    resolve_spec,
    BatchView,
    Duration,
    Path,
};

verus! {

/// The stock after `processes` were applied to `stock` one after the other,
/// or the failure of the first that cannot be applied.
pub open spec fn apply_all_spec(processes: Seq<ProcessView>, stock: Stock) -> Result<Stock, Failure>
    decreases processes.len(),
{
    if processes.len() == 0 {
        Ok(stock)
    } else {
        match apply_spec(processes[0], stock) {
            Ok(next) => apply_all_spec(processes.skip(1), next),
            Err(failure) => Err(failure),
        }
    }
}

/// The durations of `processes`, added up.
pub open spec fn total_duration(processes: Seq<ProcessView>) -> nat
    decreases processes.len(),
{
    if processes.len() == 0 {
        0
    } else {
        total_duration(processes.drop_last()) + processes.last().duration
    }
}

/// The stock after the steps `steps`: every name is looked up first, then
/// the processes are applied in order.
pub open spec fn simulate_steps_spec(
    processes: Seq<ProcessView>,
    steps: Seq<Seq<char>>,
    stock: Stock,
) -> Result<Stock, Failure> {
    match resolve_spec(processes, steps) {
        Err(failure) => Err(failure),
        Ok(found) => apply_all_spec(found, stock),
    }
}

/// The final stock of `path` run strictly step after step from the starting
/// stock, and the time that this takes: the sum of the durations.
pub open spec fn simulate_path_spec(simulation: SimulationView, path: Seq<Seq<char>>) -> Result<
    (Stock, nat),
    Failure,
> {
    match resolve_spec(simulation.processes, path) {
        Err(failure) => Err(failure),
        Ok(found) => match apply_all_spec(found, simulation.inventory) {
            Err(failure) => Err(failure),
            Ok(stock) => if total_duration(found) > usize::MAX {
                Err(Failure::Overflow("duration"@))
            } else {
                Ok((stock, total_duration(found)))
            },
        },
    }
}

/// The stock and the time after `batches` ran one after the other from
/// `stock` at time `elapsed`; within a batch the steps are applied in order.
pub open spec fn run_batches_spec(
    processes: Seq<ProcessView>,
    batches: Seq<BatchView>,
    stock: Stock,
    elapsed: nat,
) -> Result<(Stock, nat), Failure>
    decreases batches.len(),
{
    if batches.len() == 0 {
        Ok((stock, elapsed))
    } else {
        match simulate_steps_spec(processes, batches[0].1, stock) {
            Err(failure) => Err(failure),
            Ok(next) => if elapsed + batches[0].0 > usize::MAX {
                Err(Failure::Overflow("duration"@))
            } else {
                run_batches_spec(processes, batches.skip(1), next, elapsed + batches[0].0)
            },
        }
    }
}

/// The final stock of `path` run batch by batch, and the time that the
/// batches take together.
pub open spec fn simulate_batch_spec(simulation: SimulationView, path: Seq<Seq<char>>) -> Result<
    (Stock, nat),
    Failure,
> {
    match batchify_spec(simulation, path) {
        Err(failure) => Err(failure),
        Ok(batches) => run_batches_spec(simulation.processes, batches, simulation.inventory, 0),
    }
}

/// What a simulation gives, by the way it is run.
pub open spec fn simulate_spec(simulation: SimulationView, path: Seq<Seq<char>>, with_time: bool) -> Result<
    (Stock, nat),
    Failure,
> {
    if with_time {
        simulate_batch_spec(simulation, path)
    } else {
        simulate_path_spec(simulation, path)
    }
}

/// The mathematical value of a simulation result.
pub open spec fn simulation_outcome(res: Result<(Inventory, Duration), Error>) -> Result<
    (Stock, nat),
    Failure,
> {
    match res {
        Ok(pair) => Ok((pair.0@, pair.1 as nat)),
        Err(error) => Err(error@),
    }
}

/// Applies `processes` to `stock` in order.
pub fn apply_all(processes: &Vec<&Process>, stock: Inventory) -> (res: Result<Inventory, Error>)
    ensures
        crate::check::outcome(res) == apply_all_spec(processes.deep_view(), stock@),
{
    let mut acc = stock;
    let mut i: usize = 0;
    proof {
        assert(processes.deep_view().skip(0) =~= processes.deep_view());
    }
    while i < processes.len()
        invariant
            i <= processes@.len(),
            apply_all_spec(processes.deep_view(), stock@) == apply_all_spec(
                processes.deep_view().skip(i as int),
                acc@,
            ),
        decreases processes@.len() - i,
    {
        proof {
            assert(processes.deep_view().skip(i as int)[0] == processes@[i as int]@);
            assert(processes.deep_view().skip(i as int).skip(1) =~= processes.deep_view().skip(
                i + 1,
            ));
        }
        match manage_resources(acc, processes[i]) {
            Ok(next) => {
                acc = next;
            },
            Err(error) => {
                return Err(error);
            },
        }
        i += 1;
    }
    Ok(acc)
}

/// Adds the durations of `processes` up; `None` where the sum leaves
/// `usize`.
pub fn sum_durations(processes: &Vec<&Process>) -> (res: Option<Duration>)
    ensures
        res == (if total_duration(processes.deep_view()) > usize::MAX {
            None
        } else {
            Some(total_duration(processes.deep_view()) as usize)
        }),
{
    let mut total: usize = 0;
    let mut i: usize = 0;
    while i < processes.len()
        invariant
            i <= processes@.len(),
            total as nat == total_duration(processes.deep_view().take(i as int)),
        decreases processes@.len() - i,
    {
        proof {
            assert(processes.deep_view().take(i + 1).drop_last() =~= processes.deep_view().take(
                i as int,
            ));
            assert(processes.deep_view().take(i + 1).last() == processes@[i as int]@);
        }
        if processes[i].duration > usize::MAX - total {
            proof {
                lemma_total_duration_grows(processes.deep_view(), i + 1);
            }
            return None;
        }
        total = total + processes[i].duration;
        i += 1;
    }
    proof {
        assert(processes.deep_view().take(processes@.len() as int) =~= processes.deep_view());
    }
    Some(total)
}

/// The sum over a prefix is within the sum over the whole.
pub proof fn lemma_total_duration_grows(processes: Seq<ProcessView>, n: int)
    requires
        0 <= n <= processes.len(),
    ensures
        total_duration(processes.take(n)) <= total_duration(processes),
    decreases processes.len() - n,
{
    if n == processes.len() {
        assert(processes.take(n) =~= processes);
    } else {
        assert(processes.take(n + 1).drop_last() =~= processes.take(n));
        lemma_total_duration_grows(processes, n + 1);
    }
}

/// Runs `steps` on `stock`: looks every name up, then applies the processes
/// in order.
pub fn simulate_steps(simulation: &Simulation, steps: &Path, stock: Inventory) -> (res: Result<
    Inventory,
    Error,
>)
    ensures
        crate::check::outcome(res) == simulate_steps_spec(
            simulation@.processes,
            steps.deep_view(),
            stock@,
        ),
{
    match resolve(simulation, steps) {
        Err(error) => Err(error),
        Ok(found) => apply_all(&found, stock),
    }
}

/// Runs `path` step after step from the starting stock.
pub fn simulate_path(simulation: &Simulation, path: &Path) -> (res: Result<
    (Inventory, Duration),
    Error,
>)
    ensures
        simulation_outcome(res) == simulate_path_spec(simulation@, path.deep_view()),
{
    match resolve(simulation, path) {
        Err(error) => Err(error),
        Ok(found) => match apply_all(&found, simulation.inventory.clone()) {
            Err(error) => Err(error),
            Ok(stock) => match sum_durations(&found) {
                None => Err(Error::Overflow("duration".to_owned())),
                Some(duration) => Ok((stock, duration)),
            },
        },
    }
}

/// Runs `path` batch by batch from the starting stock.
pub fn simulate_batch(simulation: &Simulation, path: &Path) -> (res: Result<
    (Inventory, Duration),
    Error,
>)
    ensures
        simulation_outcome(res) == simulate_batch_spec(simulation@, path.deep_view()),
{
    let production = match batchify(simulation, crate::ast::clone_names(path)) {
        Ok(production) => production,
        Err(error) => {
            return Err(error);
        },
    };
    let ghost batches = production_view(production@);
    let mut stock = simulation.inventory.clone();
    let mut elapsed: usize = 0;
    let mut i: usize = 0;
    proof {
        assert(batches.skip(0) =~= batches);
    }
    while i < production.len()
        invariant
            i <= production@.len(),
            batches == production_view(production@),
            simulate_batch_spec(simulation@, path.deep_view()) == run_batches_spec(
                simulation@.processes,
                batches.skip(i as int),
                stock@,
                elapsed as nat,
            ),
        decreases production@.len() - i,
    {
        proof {
            assert(batches.skip(i as int)[0] == batches[i as int]);
            assert(batches.skip(i as int).skip(1) =~= batches.skip(i + 1));
        }
        match simulate_steps(simulation, &production[i].1, stock) {
            Err(error) => {
                return Err(error);
            },
            Ok(next) => {
                if production[i].0 > usize::MAX - elapsed {
                    return Err(Error::Overflow("duration".to_owned()));
                }
                stock = next;
                elapsed = elapsed + production[i].0;
            },
        }
        i += 1;
    }
    Ok((stock, elapsed))
}

/// Replays `path` on the starting stock of `simulation`: batch by batch
/// where `with_time` is set, else strictly step after step. Gives the final
/// stock and the time taken.
pub fn simulate(simulation: &Simulation, path: &Path, with_time: bool) -> (res: Result<
    (Inventory, Duration),
    Error,
>)
    ensures
        simulation_outcome(res) == simulate_spec(simulation@, path.deep_view(), with_time),
{
    if with_time {
        simulate_batch(simulation, path)
    } else {
        simulate_path(simulation, path)
    }
}

} // verus!
