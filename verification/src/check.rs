//! The resource ledger: what a process takes out of a stock and puts into it.

use vstd::prelude::*;
use crate::ast::{find_process, lookup, Process, ProcessView, Resource, ResourceView, Simulation};
use crate::error::{Error, Failure};
use crate::inventory::{held, Inventory, Stock};

verus! {

/// The stock after the resources of `input` were taken out of `stock` one
/// after the other, or the first resource of `input` that `stock` lacks or
/// holds too little of.
pub open spec fn consume_spec(input: Seq<ResourceView>, stock: Stock) -> Result<Stock, Failure>
    decreases input.len(),
{
    if input.len() == 0 {
        Ok(stock)
    } else {
        let name = input[0].name;
        let wanted = input[0].quantity;
        if !stock.dom().contains(name) || stock[name] < wanted {
            Err(Failure::InsufficientResource(name))
        } else {
            consume_spec(input.skip(1), stock.insert(name, (stock[name] - wanted) as nat))
        }
    }
}

/// The stock after the resources of `output` were put into `stock` one after
/// the other, or the first resource whose quantity would leave `usize`.
pub open spec fn produce_spec(output: Seq<ResourceView>, stock: Stock) -> Result<Stock, Failure>
    decreases output.len(),
{
    if output.len() == 0 {
        Ok(stock)
    } else {
        let name = output[0].name;
        let held = if stock.dom().contains(name) { stock[name] } else { 0 };
        let total = held + output[0].quantity;
        if total > usize::MAX {
            Err(Failure::Overflow(name))
        } else {
            produce_spec(output.skip(1), stock.insert(name, total))
        }
    }
}

/// Consumption of the input of `process`, then production of its output.
pub open spec fn apply_spec(process: ProcessView, stock: Stock) -> Result<Stock, Failure> {
    match consume_spec(process.input, stock) {
        Ok(consumed) => produce_spec(process.output, consumed),
        Err(failure) => Err(failure),
    }
}

/// `stock` holds every resource of `input` in the quantity asked for.
pub open spec fn feasible_spec(input: Seq<ResourceView>, stock: Stock) -> bool {
    consume_spec(input, stock) is Ok
}

/// The mathematical value of a ledger result.
pub open spec fn outcome(res: Result<Inventory, Error>) -> Result<Stock, Failure> {
    match res {
        Ok(inventory) => Ok(inventory@),
        Err(error) => Err(error@),
    }
}

/// What taking one resource out of a stock gives.
pub open spec fn consume_one(resource: ResourceView, stock: Stock) -> Result<Stock, Failure> {
    if !stock.dom().contains(resource.name) || stock[resource.name] < resource.quantity {
        Err(Failure::InsufficientResource(resource.name))
    } else {
        Ok(stock.insert(resource.name, (stock[resource.name] - resource.quantity) as nat))
    }
}

/// What putting one resource into a stock gives.
pub open spec fn produce_one(resource: ResourceView, stock: Stock) -> Result<Stock, Failure> {
    let held = if stock.dom().contains(resource.name) {
        stock[resource.name]
    } else {
        0
    };
    if held + resource.quantity > usize::MAX {
        Err(Failure::Overflow(resource.name))
    } else {
        Ok(stock.insert(resource.name, held + resource.quantity))
    }
}

/// Taking a list out of a stock is taking its first resource, then the rest.
pub proof fn lemma_consume_step(input: Seq<ResourceView>, stock: Stock)
    requires
        input.len() > 0,
    ensures
        consume_spec(input, stock) == match consume_one(input[0], stock) {
            Ok(next) => consume_spec(input.skip(1), next),
            Err(failure) => Err(failure),
        },
{
}

/// Putting a list into a stock is putting its first resource, then the rest.
pub proof fn lemma_produce_step(output: Seq<ResourceView>, stock: Stock)
    requires
        output.len() > 0,
    ensures
        produce_spec(output, stock) == match produce_one(output[0], stock) {
            Ok(next) => produce_spec(output.skip(1), next),
            Err(failure) => Err(failure),
        },
{
}

/// One step of consumption: passes an earlier failure on, else takes
/// `resource` out of the stock.
pub fn consume_resource(acc_res: Result<Inventory, Error>, resource: &Resource) -> (res: Result<
    Inventory,
    Error,
>)
    ensures
        outcome(res) == match outcome(acc_res) {
            Ok(stock) => consume_one(resource@, stock),
            Err(failure) => Err(failure),
        },
{
    match acc_res {
        Ok(acc) => {
            match acc.get(&resource.name) {
                None => Err(Error::InsufficientResource(resource.name.clone())),
                Some(held) => {
                    if held < resource.quantity {
                        Err(Error::InsufficientResource(resource.name.clone()))
                    } else {
                        let mut new_acc = acc;
                        new_acc.insert(resource.name.clone(), held - resource.quantity);
                        Ok(new_acc)
                    }
                },
            }
        },
        Err(error) => Err(error),
    }
}

/// Takes every resource of `input` out of `inventory`. Fails on the first
/// resource that the stock lacks or holds too little of, and names it; the
/// stock is handed back only when all of `input` was there.
pub fn consume_resources(input: &Vec<Resource>, inventory: Inventory) -> (res: Result<
    Inventory,
    Error,
>)
    ensures
        outcome(res) == consume_spec(input.deep_view(), inventory@),
{
    let ghost start = inventory@;
    let mut acc: Result<Inventory, Error> = Ok(inventory);
    let mut i: usize = 0;
    proof {
        assert(input.deep_view().skip(0) =~= input.deep_view());
    }
    while i < input.len()
        invariant
            i <= input@.len(),
            consume_spec(input.deep_view(), start) == match outcome(acc) {
                Ok(stock) => consume_spec(input.deep_view().skip(i as int), stock),
                Err(failure) => Err(failure),
            },
        decreases input@.len() - i,
    {
        proof {
            if outcome(acc) is Ok {
                lemma_consume_step(input.deep_view().skip(i as int), outcome(acc)->Ok_0);
                assert(input.deep_view().skip(i as int).skip(1) =~= input.deep_view().skip(i + 1));
                assert(input.deep_view().skip(i as int)[0] == input@[i as int]@);
            }
        }
        acc = consume_resource(acc, &input[i]);
        i += 1;
    }
    acc
}

/// Puts every resource of `output` into `inventory`, adding entries for new
/// names. Fails only where a quantity would leave `usize`, and names the
/// resource.
pub fn produce_resources(output: &Vec<Resource>, inventory: Inventory) -> (res: Result<
    Inventory,
    Error,
>)
    ensures
        outcome(res) == produce_spec(output.deep_view(), inventory@),
{
    let ghost start = inventory@;
    let mut acc = inventory;
    let mut i: usize = 0;
    proof {
        assert(output.deep_view().skip(0) =~= output.deep_view());
    }
    while i < output.len()
        invariant
            i <= output@.len(),
            start == inventory@,
            produce_spec(output.deep_view(), start) == produce_spec(output.deep_view().skip(i as int), acc@),
        decreases output@.len() - i,
    {
        let resource = &output[i];
        proof {
            lemma_produce_step(output.deep_view().skip(i as int), acc@);
            assert(output.deep_view().skip(i as int).skip(1) =~= output.deep_view().skip(i + 1));
            assert(output.deep_view().skip(i as int)[0] == resource@);
        }
        let held = match acc.get(&resource.name) {
            Some(quantity) => quantity,
            None => 0,
        };
        if held > usize::MAX - resource.quantity {
            return Err(Error::Overflow(resource.name.clone()));
        }
        acc.insert(resource.name.clone(), held + resource.quantity);
        i += 1;
    }
    Ok(acc)
}

/// Applies `process` to `inventory`: consumes its input, then produces its
/// output.
pub fn manage_resources(inventory: Inventory, process: &Process) -> (res: Result<Inventory, Error>)
    ensures
        outcome(res) == apply_spec(process@, inventory@),
{
    match consume_resources(&process.input, inventory) {
        Ok(consumed) => produce_resources(&process.output, consumed),
        Err(error) => Err(error),
    }
}

/// Whether `inventory` holds every resource of `input` in the quantity asked
/// for. The stock is only read.
pub fn is_feasible(input: &Vec<Resource>, inventory: &Inventory) -> (res: bool)
    ensures
        res == feasible_spec(input.deep_view(), inventory@),
{
    consume_resources(input, inventory.clone()).is_ok()
}

/// The quantity that `list` names under `name`, all its entries taken
/// together.
pub open spec fn total_of(list: Seq<ResourceView>, name: Seq<char>) -> nat
    decreases list.len(),
{
    if list.len() == 0 {
        0
    } else {
        let first: nat = if list[0].name == name {
            list[0].quantity
        } else {
            0
        };
        first + total_of(list.skip(1), name)
    }
}

/// `stock` has an entry for every resource of `input`, and holds at least
/// what `input` asks of it in total.
pub open spec fn covers(input: Seq<ResourceView>, stock: Stock) -> bool {
    forall|k: int|
        0 <= k < input.len() ==> stock.dom().contains((#[trigger] input[k]).name) && total_of(
            input,
            input[k].name,
        ) <= stock[input[k].name]
}

/// Consumption succeeds exactly on a stock that covers the input. It then
/// keeps the entries of the stock and takes from each exactly what the
/// input asks under its name, so that no quantity ever falls below zero;
/// where it fails, no stock comes back at all.
pub proof fn lemma_consume_exact(input: Seq<ResourceView>, stock: Stock)
    ensures
        consume_spec(input, stock) is Ok <==> covers(input, stock),
        consume_spec(input, stock) matches Ok(rest) ==> rest.dom() == stock.dom() && forall|
            name: Seq<char>,
        |
            stock.dom().contains(name) ==> #[trigger] rest[name] + total_of(input, name)
                == stock[name],
    decreases input.len(), 0nat,
{
    if input.len() > 0 {
        let first = input[0];
        let tail = input.skip(1);
        if stock.dom().contains(first.name) && stock[first.name] >= first.quantity {
            let next = stock.insert(first.name, (stock[first.name] - first.quantity) as nat);
            lemma_consume_exact(tail, next);
            assert(next.dom() =~= stock.dom());
            if covers(input, stock) {
                assert forall|k: int| 0 <= k < tail.len() implies next.dom().contains(
                    (#[trigger] tail[k]).name,
                ) && total_of(tail, tail[k].name) <= next[tail[k].name] by {
                    assert(tail[k] == input[k + 1]);
                }
            }
            if covers(tail, next) {
                assert forall|k: int| 0 <= k < input.len() implies stock.dom().contains(
                    (#[trigger] input[k]).name,
                ) && total_of(input, input[k].name) <= stock[input[k].name] by {
                    if k > 0 {
                        assert(input[k] == tail[k - 1]);
                    } else {
                        lemma_total_bounded(tail, next, first.name);
                    }
                }
            }
            if consume_spec(input, stock) is Ok {
                let rest = consume_spec(input, stock)->Ok_0;
                assert(rest.dom() =~= stock.dom());
            }
        } else {
            assert(!covers(input, stock)) by {
                if covers(input, stock) {
                    assert(stock.dom().contains(input[0].name));
                }
            }
        }
    }
}

/// On a stock that covers `input`, what `input` asks under any name of the
/// stock is within what the stock holds.
proof fn lemma_total_bounded(input: Seq<ResourceView>, stock: Stock, name: Seq<char>)
    requires
        covers(input, stock),
        stock.dom().contains(name),
    ensures
        total_of(input, name) <= stock[name],
    decreases input.len(), 1nat,
{
    lemma_consume_exact(input, stock);
    let rest = consume_spec(input, stock)->Ok_0;
    assert(rest[name] + total_of(input, name) == stock[name]);
}

/// Production keeps every entry of the stock, adds one for each new name of
/// the output, and puts under each name exactly what the output gives for
/// it. It fails only where such a sum leaves `usize`.
pub proof fn lemma_produce_exact(output: Seq<ResourceView>, stock: Stock)
    ensures
        produce_spec(output, stock) is Ok <==> forall|k: int|
            0 <= k < output.len() ==> held(stock, (#[trigger] output[k]).name) + total_of(
                output,
                output[k].name,
            ) <= usize::MAX,
        produce_spec(output, stock) matches Ok(grown) ==> forall|name: Seq<char>|
            #![trigger grown.dom().contains(name)]
            #![trigger held(grown, name)]
            {
                &&& grown.dom().contains(name) <==> stock.dom().contains(name) || total_in(
                    output,
                    name,
                )
                &&& held(grown, name) == held(stock, name) + total_of(output, name)
            },
    decreases output.len(),
{
    if output.len() > 0 {
        let first = output[0];
        let tail = output.skip(1);
        let sum = held(stock, first.name) + first.quantity;
        if sum <= usize::MAX {
            let next = stock.insert(first.name, sum);
            lemma_produce_exact(tail, next);
            let fits = |list: Seq<ResourceView>, from: Stock|
                forall|k: int|
                    0 <= k < list.len() ==> held(from, (#[trigger] list[k]).name) + total_of(
                        list,
                        list[k].name,
                    ) <= usize::MAX;
            if fits(output, stock) {
                assert forall|k: int| 0 <= k < tail.len() implies held(
                    next,
                    (#[trigger] tail[k]).name,
                ) + total_of(tail, tail[k].name) <= usize::MAX by {
                    assert(tail[k] == output[k + 1]);
                }
            }
            if fits(tail, next) {
                assert forall|k: int| 0 <= k < output.len() implies held(
                    stock,
                    (#[trigger] output[k]).name,
                ) + total_of(output, output[k].name) <= usize::MAX by {
                    if k > 0 {
                        assert(output[k] == tail[k - 1]);
                    } else {
                        let grown = produce_spec(tail, next)->Ok_0;
                        assert(grown.dom().contains(first.name) || !grown.dom().contains(first.name));
                        assert(held(grown, first.name) == held(next, first.name)
                            + total_of(tail, first.name));
                        lemma_quantity_bounded(tail, next, first.name);
                    }
                }
            }
            if produce_spec(output, stock) is Ok {
                let grown = produce_spec(output, stock)->Ok_0;
                assert forall|name: Seq<char>|
                    #![trigger grown.dom().contains(name)]
                    #![trigger held(grown, name)]
                    {
                        &&& grown.dom().contains(name) <==> stock.dom().contains(name) || total_in(
                            output,
                            name,
                        )
                        &&& held(grown, name) == held(stock, name) + total_of(
                            output,
                            name,
                        )
                    } by {
                    assert(grown.dom().contains(name) <==> next.dom().contains(name) || total_in(
                        tail,
                        name,
                    ));
                    assert(held(grown, name) == held(next, name) + total_of(tail, name));
                    if total_in(tail, name) {
                        let k = choose|k: int| 0 <= k < tail.len() && (#[trigger] tail[k]).name == name;
                        assert(output[k + 1] == tail[k]);
                    }
                    if total_in(output, name) && name != first.name {
                        let k = choose|k: int|
                            0 <= k < output.len() && (#[trigger] output[k]).name == name;
                        assert(tail[k - 1] == output[k]);
                    }
                }
            }
        } else {
            assert(output[0].name == first.name);
        }
    }
}

/// Some entry of `list` carries `name`.
pub open spec fn total_in(list: Seq<ResourceView>, name: Seq<char>) -> bool {
    exists|k: int| 0 <= k < list.len() && (#[trigger] list[k]).name == name
}

/// Where production succeeds, every quantity of its result is within
/// `usize`, given that those of the stock were.
proof fn lemma_quantity_bounded(output: Seq<ResourceView>, stock: Stock, name: Seq<char>)
    requires
        produce_spec(output, stock) is Ok,
        held(stock, name) <= usize::MAX,
    ensures
        held(produce_spec(output, stock)->Ok_0, name) <= usize::MAX,
    decreases output.len(),
{
    if output.len() > 0 {
        let first = output[0];
        let sum = held(stock, first.name) + first.quantity;
        let next = stock.insert(first.name, sum);
        lemma_quantity_bounded(output.skip(1), next, name);
    }
}

/// The stock after every process of `processes` put its output into `stock`,
/// nothing being consumed.
pub open spec fn produce_all_spec(processes: Seq<ProcessView>, stock: Stock) -> Result<Stock, Failure>
    decreases processes.len(),
{
    if processes.len() == 0 {
        Ok(stock)
    } else {
        match produce_spec(processes[0].output, stock) {
            Ok(next) => produce_all_spec(processes.skip(1), next),
            Err(failure) => Err(failure),
        }
    }
}

/// Puts the output of every process of `processes` into `inventory`, in
/// order, without consuming any input.
pub fn manage_multi_resources(inventory: Inventory, processes: &Vec<&Process>) -> (res: Result<
    Inventory,
    Error,
>)
    ensures
        outcome(res) == produce_all_spec(processes.deep_view(), inventory@),
{
    let ghost start = inventory@;
    let mut acc = inventory;
    let mut i: usize = 0;
    proof {
        assert(processes.deep_view().skip(0) =~= processes.deep_view());
    }
    while i < processes.len()
        invariant
            i <= processes@.len(),
            start == inventory@,
            produce_all_spec(processes.deep_view(), start) == produce_all_spec(
                processes.deep_view().skip(i as int),
                acc@,
            ),
        decreases processes@.len() - i,
    {
        proof {
            assert(processes.deep_view().skip(i as int)[0] == processes@[i as int]@);
            assert(processes.deep_view().skip(i as int).skip(1) =~= processes.deep_view().skip(
                i + 1,
            ));
        }
        match produce_resources(&processes[i].output, acc) {
            Ok(next) => {
                acc = next;
            },
            Err(error) => {
                return Err(error);
            },
        }
        i += 1;
    }
    Ok(acc)
}

/// A schedule handed in for validation: the names of the processes to run,
/// in order.
pub struct Output {
    pub steps: Vec<String>,
}

/// The stock after the processes named by `steps` were applied to `stock` one
/// after the other; the failure of the first step that is unknown to the
/// catalog or cannot be applied.
pub open spec fn run_spec(processes: Seq<ProcessView>, steps: Seq<Seq<char>>, stock: Stock) -> Result<
    Stock,
    Failure,
>
    decreases steps.len(),
{
    if steps.len() == 0 {
        Ok(stock)
    } else {
        match lookup(processes, steps[0]) {
            None => Err(Failure::UnknownProcess(steps[0])),
            Some(process) => match apply_spec(process, stock) {
                Ok(next) => run_spec(processes, steps.skip(1), next),
                Err(failure) => Err(failure),
            },
        }
    }
}

/// Replays `output` step by step on the starting stock of `simulation` and
/// gives the final stock, or the failure of the first step that cannot run.
pub fn check(simulation: Simulation, output: Output) -> (res: Result<Inventory, Error>)
    ensures
        outcome(res) == run_spec(
            simulation@.processes,
            output.steps.deep_view(),
            simulation@.inventory,
        ),
{
    let steps = &output.steps;
    let mut acc = simulation.inventory.clone();
    let mut i: usize = 0;
    proof {
        assert(steps.deep_view().skip(0) =~= steps.deep_view());
    }
    while i < steps.len()
        invariant
            i <= steps@.len(),
            steps == &output.steps,
            run_spec(simulation@.processes, steps.deep_view(), simulation@.inventory) == run_spec(
                simulation@.processes,
                steps.deep_view().skip(i as int),
                acc@,
            ),
        decreases steps@.len() - i,
    {
        proof {
            assert(steps.deep_view().skip(i as int)[0] == steps@[i as int]@);
            assert(steps.deep_view().skip(i as int).skip(1) =~= steps.deep_view().skip(i + 1));
        }
        match find_process(&simulation.processes, &steps[i]) {
            None => {
                return Err(Error::UnknownProcess(steps[i].clone()));
            },
            Some(process) => match manage_resources(acc, process) {
                Ok(next) => {
                    acc = next;
                },
                Err(error) => {
                    return Err(error);
                },
            },
        }
        i += 1;
    }
    Ok(acc)
}

} // verus!
