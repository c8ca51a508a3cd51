//! The batching engine: from a serial order of processes to batches of
//! processes that run side by side.

use vstd::prelude::*;
use crate::ast::{find_process, lookup, Process, ProcessView, Simulation, SimulationView};
use crate::check::{
    apply_spec,
    consume_resources,
    consume_spec,
    manage_multi_resources,
    produce_all_spec,
    produce_spec,
    run_spec,
};
use crate::error::{Error, Failure};
use crate::inventory::Stock;

verus! {

/// The search strategies that the library offers.
pub enum Algorithm {
    Genetic,
}

/// A span of time, in the unit of the catalog.
pub type Duration = usize;

/// The name of a process, as a step of a schedule.
pub type Step = String;

/// A serial schedule: names of processes, in the order in which they start.
pub type Path = Vec<Step>;

/// Processes that run side by side, and the time that the longest takes.
pub type Batch = (Duration, Path);

/// Batches, one after the other.
pub type Production = Vec<Batch>;

/// The mathematical value of a [`Batch`].
pub type BatchView = (nat, Seq<Seq<char>>);

/// The mathematical value of a [`Production`].
pub open spec fn production_view(production: Seq<Batch>) -> Seq<BatchView> {
    Seq::new(production.len(), |i: int| (production[i].0 as nat, production[i].1.deep_view()))
}

/// The processes that `steps` name, or the first name that `processes` does
/// not hold.
pub open spec fn resolve_spec(processes: Seq<ProcessView>, steps: Seq<Seq<char>>) -> Result<
    Seq<ProcessView>,
    Failure,
>
    decreases steps.len(),
{
    if steps.len() == 0 {
        Ok(Seq::empty())
    } else {
        match resolve_spec(processes, steps.drop_last()) {
            Err(failure) => Err(failure),
            Ok(found) => match lookup(processes, steps.last()) {
                None => Err(Failure::UnknownProcess(steps.last())),
                Some(process) => Ok(found.push(process)),
            },
        }
    }
}

/// The longest duration among `processes`; 0 for none.
pub open spec fn max_duration(processes: Seq<ProcessView>) -> nat
    decreases processes.len(),
{
    if processes.len() == 0 {
        0
    } else {
        let rest = max_duration(processes.drop_last());
        if processes.last().duration > rest {
            processes.last().duration
        } else {
            rest
        }
    }
}

/// The names of `processes`, in order.
pub open spec fn names_of(processes: Seq<ProcessView>) -> Seq<Seq<char>> {
    Seq::new(processes.len(), |i: int| processes[i].name)
}

/// The batch that `processes` make when they run side by side.
pub open spec fn batch_of(processes: Seq<ProcessView>) -> BatchView {
    (max_duration(processes), names_of(processes))
}

/// Where the batching of a path stands: the batches that are closed, the
/// processes of the open batch, the stock that the open batch can still draw
/// on, and the stock with which it opened.
pub struct BatchState {
    pub closed: Seq<BatchView>,
    pub open: Seq<ProcessView>,
    pub stock: Stock,
    pub start: Stock,
}

/// Batches `processes`, in order, from `state` on. A process joins the open
/// batch while the batch's stock covers its input. The first that it does
/// not cover closes the batch: the next batch opens with the closed one's
/// opening stock plus the output of all its processes, and holds that
/// process. A process that cannot join an empty batch fails the batching.
pub open spec fn batch_fold(processes: Seq<ProcessView>, state: BatchState) -> Result<
    Seq<BatchView>,
    Failure,
>
    decreases processes.len(),
{
    if processes.len() == 0 {
        if state.open.len() == 0 {
            Ok(state.closed)
        } else {
            Ok(state.closed.push(batch_of(state.open)))
        }
    } else {
        let process = processes[0];
        match consume_spec(process.input, state.stock) {
            Ok(rest) => batch_fold(
                processes.skip(1),
                BatchState { open: state.open.push(process), stock: rest, ..state },
            ),
            Err(failure) => if state.open.len() == 0 {
                Err(failure)
            } else {
                match produce_all_spec(state.open, state.start) {
                    Err(overflow) => Err(overflow),
                    Ok(fresh) => batch_fold(
                        processes.skip(1),
                        BatchState {
                            closed: state.closed.push(batch_of(state.open)),
                            open: seq![process],
                            stock: fresh,
                            start: fresh,
                        },
                    ),
                }
            },
        }
    }
}

/// The batches of `path` on the catalog `simulation`.
pub open spec fn batchify_spec(simulation: SimulationView, path: Seq<Seq<char>>) -> Result<
    Seq<BatchView>,
    Failure,
> {
    match resolve_spec(simulation.processes, path) {
        Err(failure) => Err(failure),
        Ok(processes) => batch_fold(
            processes,
            BatchState {
                closed: Seq::empty(),
                open: Seq::empty(),
                stock: simulation.inventory,
                start: simulation.inventory,
            },
        ),
    }
}

/// The mathematical value of a batching result.
pub open spec fn batch_outcome(res: Result<Production, Error>) -> Result<Seq<BatchView>, Failure> {
    match res {
        Ok(production) => Ok(production_view(production@)),
        Err(error) => Err(error@),
    }
}

/// Looks up every name of `steps` in the catalog.
pub fn resolve<'a>(simulation: &'a Simulation, steps: &Path) -> (res: Result<
    Vec<&'a Process>,
    Error,
>)
    ensures
        match res {
            Ok(found) => resolve_spec(simulation@.processes, steps.deep_view()) == Ok::<
                Seq<ProcessView>,
                Failure,
            >(found.deep_view()),
            Err(error) => resolve_spec(simulation@.processes, steps.deep_view()) == Err::<
                Seq<ProcessView>,
                Failure,
            >(error@),
        },
{
    let mut found: Vec<&Process> = Vec::new();
    let mut i: usize = 0;
    proof {
        assert(found.deep_view() =~= Seq::<ProcessView>::empty());
    }
    while i < steps.len()
        invariant
            i <= steps@.len(),
            resolve_spec(simulation@.processes, steps.deep_view().take(i as int)) == Ok::<
                Seq<ProcessView>,
                Failure,
            >(found.deep_view()),
        decreases steps@.len() - i,
    {
        let ghost before = found.deep_view();
        proof {
            assert(steps.deep_view().take(i + 1).drop_last() =~= steps.deep_view().take(i as int));
            assert(steps.deep_view().take(i + 1).last() == steps@[i as int]@);
        }
        match find_process(&simulation.processes, &steps[i]) {
            None => {
                proof {
                    lemma_resolve_failure(
                        simulation@.processes,
                        steps.deep_view(),
                        i + 1,
                    );
                }
                return Err(Error::UnknownProcess(steps[i].clone()));
            },
            Some(process) => {
                found.push(process);
                proof {
                    assert(found.deep_view() =~= before.push(process@));
                }
            },
        }
        i += 1;
    }
    proof {
        assert(steps.deep_view().take(steps@.len() as int) =~= steps.deep_view());
    }
    Ok(found)
}

/// A failure on the first `n` names is the failure on all of them.
pub proof fn lemma_resolve_failure(processes: Seq<ProcessView>, steps: Seq<Seq<char>>, n: int)
    requires
        0 <= n <= steps.len(),
        resolve_spec(processes, steps.take(n)) is Err,
    ensures
        resolve_spec(processes, steps) == resolve_spec(processes, steps.take(n)),
    decreases steps.len() - n,
{
    if n == steps.len() {
        assert(steps.take(n) =~= steps);
    } else {
        assert(steps.take(n + 1).drop_last() =~= steps.take(n));
        lemma_resolve_failure(processes, steps, n + 1);
    }
}

/// Every process of `list` is the one that the catalog holds under its name.
pub open spec fn catalogued(processes: Seq<ProcessView>, list: Seq<ProcessView>) -> bool {
    forall|k: int| 0 <= k < list.len() ==> lookup(processes, (#[trigger] list[k]).name) == Some(list[k])
}

/// The steps of `batch` are known to the catalog, and `batch` lasts as long
/// as the longest of them.
pub open spec fn lasts_as_longest(processes: Seq<ProcessView>, batch: BatchView) -> bool {
    match resolve_spec(processes, batch.1) {
        Ok(placed) => batch.0 == max_duration(placed),
        Err(_) => false,
    }
}

/// A process found under a name carries that name.
pub proof fn lemma_lookup_name(processes: Seq<ProcessView>, name: Seq<char>)
    ensures
        lookup(processes, name) matches Some(process) ==> process.name == name,
    decreases processes.len(),
{
    if processes.len() > 0 && processes[0].name != name {
        lemma_lookup_name(processes.skip(1), name);
    }
}

/// The processes that a path resolves to are those of the catalog, and
/// there is one for each step.
pub proof fn lemma_resolve_catalogued(processes: Seq<ProcessView>, steps: Seq<Seq<char>>)
    requires
        resolve_spec(processes, steps) is Ok,
    ensures
        catalogued(processes, resolve_spec(processes, steps)->Ok_0),
        names_of(resolve_spec(processes, steps)->Ok_0) == steps,
    decreases steps.len(),
{
    let found = resolve_spec(processes, steps)->Ok_0;
    if steps.len() > 0 {
        lemma_resolve_catalogued(processes, steps.drop_last());
        lemma_lookup_name(processes, steps.last());
        let before = resolve_spec(processes, steps.drop_last())->Ok_0;
        assert(names_of(before) == steps.drop_last());
        assert(before.len() == steps.len() - 1);
        assert forall|k: int| 0 <= k < found.len() implies #[trigger] names_of(found)[k] == steps[k] by {
            if k < before.len() {
                assert(names_of(before)[k] == steps.drop_last()[k]);
            }
        }
    }
    assert(names_of(found) =~= steps);
}

/// The names of catalogued processes resolve to these processes.
pub proof fn lemma_resolve_names(processes: Seq<ProcessView>, list: Seq<ProcessView>)
    requires
        catalogued(processes, list),
    ensures
        resolve_spec(processes, names_of(list)) == Ok::<Seq<ProcessView>, Failure>(list),
    decreases list.len(),
{
    if list.len() > 0 {
        assert(catalogued(processes, list.drop_last()));
        lemma_resolve_names(processes, list.drop_last());
        assert(names_of(list).drop_last() =~= names_of(list.drop_last()));
        assert(names_of(list).last() == list.last().name);
        assert(lookup(processes, list[list.len() - 1].name) == Some(list[list.len() - 1]));
        assert(list.drop_last().push(list.last()) =~= list);
    } else {
        assert(list =~= Seq::<ProcessView>::empty());
    }
}

proof fn lemma_fold_durations(
    processes: Seq<ProcessView>,
    rest: Seq<ProcessView>,
    state: BatchState,
)
    requires
        catalogued(processes, rest),
        catalogued(processes, state.open),
        forall|i: int| 0 <= i < state.closed.len() ==> lasts_as_longest(processes, #[trigger] state.closed[i]),
        batch_fold(rest, state) is Ok,
    ensures
        forall|i: int|
            0 <= i < batch_fold(rest, state)->Ok_0.len() ==> lasts_as_longest(
                processes,
                #[trigger] batch_fold(rest, state)->Ok_0[i],
            ),
    decreases rest.len(),
{
    lemma_resolve_names(processes, state.open);
    let grown = state.closed.push(batch_of(state.open));
    assert forall|i: int| 0 <= i < grown.len() implies lasts_as_longest(processes, #[trigger] grown[i]) by {
        if i < state.closed.len() {
            assert(grown[i] == state.closed[i]);
        }
    }
    if rest.len() > 0 {
        let process = rest[0];
        assert(catalogued(processes, rest.skip(1))) by {
            assert forall|k: int| 0 <= k < rest.skip(1).len() implies lookup(
                processes,
                (#[trigger] rest.skip(1)[k]).name,
            ) == Some(rest.skip(1)[k]) by {
                assert(rest.skip(1)[k] == rest[k + 1]);
            }
        }
        match consume_spec(process.input, state.stock) {
            Ok(remaining) => {
                let next = BatchState { open: state.open.push(process), stock: remaining, ..state };
                assert(catalogued(processes, next.open)) by {
                    assert forall|k: int| 0 <= k < next.open.len() implies lookup(
                        processes,
                        (#[trigger] next.open[k]).name,
                    ) == Some(next.open[k]) by {
                        if k < state.open.len() {
                            assert(next.open[k] == state.open[k]);
                        }
                    }
                }
                lemma_fold_durations(processes, rest.skip(1), next);
            },
            Err(_) => {
                let fresh = produce_all_spec(state.open, state.start)->Ok_0;
                let next = BatchState {
                    closed: grown,
                    open: seq![process],
                    stock: fresh,
                    start: fresh,
                };
                assert(catalogued(processes, next.open));
                lemma_fold_durations(processes, rest.skip(1), next);
            },
        }
    }
}

/// Production fails only where a quantity leaves the machine.
pub proof fn lemma_produce_fails_by_overflow(output: Seq<crate::ast::ResourceView>, stock: Stock)
    ensures
        produce_spec(output, stock) matches Err(failure) ==> failure is Overflow,
    decreases output.len(),
{
    if output.len() > 0 {
        match crate::check::produce_one(output[0], stock) {
            Ok(next) => {
                crate::check::lemma_produce_step(output, stock);
                lemma_produce_fails_by_overflow(output.skip(1), next);
            },
            Err(_) => {},
        }
    }
}

/// The production of a whole batch fails only where a quantity leaves the
/// machine.
pub proof fn lemma_produce_all_fails_by_overflow(processes: Seq<ProcessView>, stock: Stock)
    ensures
        produce_all_spec(processes, stock) matches Err(failure) ==> failure is Overflow,
    decreases processes.len(),
{
    if processes.len() > 0 {
        lemma_produce_fails_by_overflow(processes[0].output, stock);
        match produce_spec(processes[0].output, stock) {
            Ok(next) => {
                lemma_produce_all_fails_by_overflow(processes.skip(1), next);
            },
            Err(_) => {},
        }
    }
}

/// Once a batch is open, or where the stock covers the next process,
/// batching fails only where a quantity leaves the machine.
proof fn lemma_fold_fails_by_overflow(rest: Seq<ProcessView>, state: BatchState)
    requires
        state.open.len() > 0 || rest.len() == 0 || consume_spec(rest[0].input, state.stock) is Ok,
    ensures
        batch_fold(rest, state) matches Err(failure) ==> failure is Overflow,
    decreases rest.len(),
{
    if rest.len() > 0 {
        let process = rest[0];
        match consume_spec(process.input, state.stock) {
            Ok(remaining) => {
                let next = BatchState { open: state.open.push(process), stock: remaining, ..state };
                lemma_fold_fails_by_overflow(rest.skip(1), next);
            },
            Err(_) => {
                lemma_produce_all_fails_by_overflow(state.open, state.start);
                match produce_all_spec(state.open, state.start) {
                    Ok(fresh) => {
                        let next = BatchState {
                            closed: state.closed.push(batch_of(state.open)),
                            open: seq![process],
                            stock: fresh,
                            start: fresh,
                        };
                        lemma_fold_fails_by_overflow(rest.skip(1), next);
                    },
                    Err(_) => {},
                }
            },
        }
    }
}

/// A path that runs knows all its steps, and its first step is covered by
/// the stock from which it runs.
pub proof fn lemma_run_resolves(processes: Seq<ProcessView>, path: Seq<Seq<char>>, stock: Stock)
    requires
        run_spec(processes, path, stock) is Ok,
    ensures
        resolve_spec(processes, path) is Ok,
        resolve_spec(processes, path)->Ok_0.len() == path.len(),
        path.len() > 0 ==> apply_spec(resolve_spec(processes, path)->Ok_0[0], stock) is Ok,
    decreases path.len(),
{
    if path.len() > 0 {
        let process = lookup(processes, path[0])->Some_0;
        let next = apply_spec(process, stock)->Ok_0;
        lemma_run_resolves(processes, path.skip(1), next);
        lemma_resolve_front(processes, path);
    }
}

/// The processes of a path are the process of its first step, then those
/// of the rest.
pub proof fn lemma_resolve_front(processes: Seq<ProcessView>, path: Seq<Seq<char>>)
    requires
        path.len() > 0,
        lookup(processes, path[0]) is Some,
        resolve_spec(processes, path.skip(1)) is Ok,
    ensures
        resolve_spec(processes, path) == Ok::<Seq<ProcessView>, Failure>(
            seq![lookup(processes, path[0])->Some_0] + resolve_spec(processes, path.skip(1))->Ok_0,
        ),
    decreases path.len(),
{
    let first = lookup(processes, path[0])->Some_0;
    if path.len() == 1 {
        assert(path.drop_last() =~= Seq::<Seq<char>>::empty());
        assert(path.skip(1) =~= Seq::<Seq<char>>::empty());
        assert(Seq::<ProcessView>::empty().push(first) =~= seq![first] + Seq::<ProcessView>::empty());
    } else {
        let tail = path.skip(1);
        assert(tail.drop_last() =~= path.drop_last().skip(1));
        assert(path.drop_last()[0] == path[0]);
        assert(tail.last() == path.last());
        lemma_resolve_front(processes, path.drop_last());
        let inner = resolve_spec(processes, tail.drop_last())->Ok_0;
        let last = lookup(processes, path.last())->Some_0;
        assert((seq![first] + inner).push(last) =~= seq![first] + inner.push(last));
    }
}

/// The batching of a path that runs from the starting stock fails only
/// where a quantity leaves the machine: never for an unknown process, never
/// for want of a resource.
pub proof fn lemma_running_path_batches(simulation: SimulationView, path: Seq<Seq<char>>)
    requires
        run_spec(simulation.processes, path, simulation.inventory) is Ok,
    ensures
        batchify_spec(simulation, path) matches Err(failure) ==> failure is Overflow,
{
    lemma_run_resolves(simulation.processes, path, simulation.inventory);
    let found = resolve_spec(simulation.processes, path)->Ok_0;
    let first = BatchState {
        closed: Seq::empty(),
        open: Seq::empty(),
        stock: simulation.inventory,
        start: simulation.inventory,
    };
    lemma_fold_fails_by_overflow(found, first);
}

/// The steps of `batches`, batch after batch.
pub open spec fn flatten(batches: Seq<BatchView>) -> Seq<Seq<char>>
    decreases batches.len(),
{
    if batches.len() == 0 {
        Seq::empty()
    } else {
        flatten(batches.drop_last()) + batches.last().1
    }
}

proof fn lemma_fold_keeps_steps(rest: Seq<ProcessView>, state: BatchState)
    requires
        batch_fold(rest, state) is Ok,
    ensures
        flatten(batch_fold(rest, state)->Ok_0) == flatten(state.closed) + names_of(state.open)
            + names_of(rest),
    decreases rest.len(),
{
    let grown = state.closed.push(batch_of(state.open));
    assert(grown.drop_last() =~= state.closed);
    assert(flatten(grown) == flatten(state.closed) + names_of(state.open));
    if rest.len() == 0 {
        assert(names_of(rest) =~= Seq::<Seq<char>>::empty());
        if state.open.len() == 0 {
            assert(names_of(state.open) =~= Seq::<Seq<char>>::empty());
            assert(flatten(state.closed) + names_of(state.open) + names_of(rest) =~= flatten(
                state.closed,
            ));
        } else {
            assert(flatten(grown) + names_of(rest) =~= flatten(grown));
        }
    } else {
        let process = rest[0];
        assert(names_of(rest) =~= seq![process.name] + names_of(rest.skip(1)));
        match consume_spec(process.input, state.stock) {
            Ok(remaining) => {
                let next = BatchState { open: state.open.push(process), stock: remaining, ..state };
                lemma_fold_keeps_steps(rest.skip(1), next);
                assert(names_of(next.open) =~= names_of(state.open) + seq![process.name]);
                assert(flatten(state.closed) + names_of(next.open) + names_of(rest.skip(1))
                    =~= flatten(state.closed) + names_of(state.open) + names_of(rest));
            },
            Err(_) => {
                let fresh = produce_all_spec(state.open, state.start)->Ok_0;
                let next = BatchState {
                    closed: grown,
                    open: seq![process],
                    stock: fresh,
                    start: fresh,
                };
                lemma_fold_keeps_steps(rest.skip(1), next);
                assert(names_of(next.open) =~= seq![process.name]);
                assert(flatten(grown) + names_of(next.open) + names_of(rest.skip(1)) =~= flatten(
                    state.closed,
                ) + names_of(state.open) + names_of(rest));
            },
        }
    }
}

/// Batching keeps the schedule: the steps of the batches, batch after
/// batch, are the steps of the path in their order.
pub proof fn lemma_batches_keep_steps(simulation: SimulationView, path: Seq<Seq<char>>)
    requires
        batchify_spec(simulation, path) is Ok,
    ensures
        flatten(batchify_spec(simulation, path)->Ok_0) == path,
{
    lemma_resolve_catalogued(simulation.processes, path);
    let found = resolve_spec(simulation.processes, path)->Ok_0;
    let first = BatchState {
        closed: Seq::empty(),
        open: Seq::empty(),
        stock: simulation.inventory,
        start: simulation.inventory,
    };
    lemma_fold_keeps_steps(found, first);
    assert(names_of(first.open) =~= Seq::<Seq<char>>::empty());
    assert(flatten(first.closed) + names_of(first.open) + names_of(found) =~= names_of(found));
}

/// Every batch of a batched path lasts exactly as long as the longest
/// process placed in it.
pub proof fn lemma_batch_durations(simulation: SimulationView, path: Seq<Seq<char>>)
    requires
        batchify_spec(simulation, path) is Ok,
    ensures
        forall|i: int|
            0 <= i < batchify_spec(simulation, path)->Ok_0.len() ==> lasts_as_longest(
                simulation.processes,
                #[trigger] batchify_spec(simulation, path)->Ok_0[i],
            ),
{
    lemma_resolve_catalogued(simulation.processes, path);
    let found = resolve_spec(simulation.processes, path)->Ok_0;
    let first = BatchState {
        closed: Seq::empty(),
        open: Seq::empty(),
        stock: simulation.inventory,
        start: simulation.inventory,
    };
    lemma_fold_durations(simulation.processes, found, first);
}

/// The batch that `processes` make: the longest of their durations and
/// their names. `None` for no process.
pub fn create_batch(processes: &Vec<&Process>) -> (res: Option<Batch>)
    ensures
        match res {
            None => processes@.len() == 0,
            Some(batch) => processes@.len() > 0 && (batch.0 as nat, batch.1.deep_view())
                == batch_of(processes.deep_view()),
        },
{
    if processes.len() == 0 {
        return None;
    }
    let mut duration: usize = 0;
    let mut names: Vec<String> = Vec::new();
    let mut i: usize = 0;
    proof {
        assert(names.deep_view() =~= names_of(processes.deep_view().take(0)));
    }
    while i < processes.len()
        invariant
            i <= processes@.len(),
            duration as nat == max_duration(processes.deep_view().take(i as int)),
            names.deep_view() == names_of(processes.deep_view().take(i as int)),
        decreases processes@.len() - i,
    {
        let ghost before = names.deep_view();
        proof {
            assert(processes.deep_view().take(i + 1).drop_last() =~= processes.deep_view().take(
                i as int,
            ));
            assert(processes.deep_view().take(i + 1).last() == processes@[i as int]@);
        }
        if processes[i].duration > duration {
            duration = processes[i].duration;
        }
        names.push(processes[i].name.clone());
        proof {
            assert(names.deep_view() =~= before.push(processes@[i as int]@.name));
            assert(names.deep_view() =~= names_of(processes.deep_view().take(i + 1)));
        }
        i += 1;
    }
    proof {
        assert(processes.deep_view().take(processes@.len() as int) =~= processes.deep_view());
    }
    Some((duration, names))
}

/// Groups the serial schedule `process_names` into batches. A process joins
/// the open batch while the stock of that batch covers its input; the first
/// that it does not cover opens the next batch, whose stock is the closed
/// batch's opening stock plus everything the closed batch produces. Fails on
/// a name that the catalog does not hold, on a first process that the
/// starting stock does not cover, and where a produced quantity leaves
/// `usize`.
pub fn batchify(simulation: &Simulation, process_names: Path) -> (res: Result<Production, Error>)
    ensures
        batch_outcome(res) == batchify_spec(simulation@, process_names.deep_view()),
{
    let processes = match resolve(simulation, &process_names) {
        Ok(found) => found,
        Err(error) => {
            return Err(error);
        },
    };
    let mut batch_processes: Vec<&Process> = Vec::new();
    let mut inventory = simulation.inventory.clone();
    let mut base_inventory = simulation.inventory.clone();
    let mut batched: Vec<Batch> = Vec::new();
    let ghost all = processes.deep_view();
    let ghost first = BatchState {
        closed: Seq::empty(),
        open: Seq::empty(),
        stock: simulation@.inventory,
        start: simulation@.inventory,
    };
    let mut i: usize = 0;
    proof {
        assert(all.skip(0) =~= all);
        assert(production_view(batched@) =~= Seq::<BatchView>::empty());
        assert(batch_processes.deep_view() =~= Seq::<ProcessView>::empty());
    }
    while i < processes.len()
        invariant
            i <= processes@.len(),
            all == processes.deep_view(),
            batchify_spec(simulation@, process_names.deep_view()) == batch_fold(all, first),
            batch_fold(all, first) == batch_fold(
                all.skip(i as int),
                BatchState {
                    closed: production_view(batched@),
                    open: batch_processes.deep_view(),
                    stock: inventory@,
                    start: base_inventory@,
                },
            ),
        decreases processes@.len() - i,
    {
        let process = processes[i];
        let ghost open = batch_processes.deep_view();
        let ghost closed = production_view(batched@);
        proof {
            assert(all.skip(i as int)[0] == process@);
            assert(all.skip(i as int).skip(1) =~= all.skip(i + 1));
        }
        match consume_resources(&process.input, inventory.clone()) {
            Ok(updated) => {
                batch_processes.push(process);
                inventory = updated;
                proof {
                    assert(batch_processes.deep_view() =~= open.push(process@));
                }
            },
            Err(error) => {
                match create_batch(&batch_processes) {
                    None => {
                        return Err(error);
                    },
                    Some(batch) => {
                        match manage_multi_resources(base_inventory, &batch_processes) {
                            Err(overflow) => {
                                return Err(overflow);
                            },
                            Ok(fresh) => {
                                batched.push(batch);
                                inventory = fresh.clone();
                                base_inventory = fresh;
                                batch_processes = Vec::new();
                                batch_processes.push(process);
                                proof {
                                    assert(production_view(batched@) =~= closed.push(
                                        batch_of(open),
                                    ));
                                    assert(batch_processes.deep_view() =~= seq![process@]);
                                }
                            },
                        }
                    },
                }
            },
        }
        i += 1;
    }
    let ghost closed = production_view(batched@);
    match create_batch(&batch_processes) {
        Some(batch) => {
            batched.push(batch);
            proof {
                assert(production_view(batched@) =~= closed.push(
                    batch_of(batch_processes.deep_view()),
                ));
            }
        },
        None => {},
    }
    Ok(batched)
}

} // verus!
