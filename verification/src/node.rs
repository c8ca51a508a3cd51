//! Best-first search over sets of running processes: the nodes of the
//! search and the processes that can be started from one.

use core::cmp::Ordering;
use vstd::prelude::*;
use crate::ast::{Process, ProcessView, Resource, ResourceView, Simulation};
use crate::check::{consume_resources, consume_spec, feasible_spec, is_feasible};
use crate::inventory::{
    convert,
    convert_spec,
    inventory_add,
    inventory_add_spec,
    sums_fit,
    Inventory,
    Stock,
};

verus! {

/// A process that runs, with the time at which it ends.
pub type Running = (Process, usize);

/// The mathematical value of a [`Running`].
pub type RunningView = (ProcessView, usize);

/// A state of the search: the stock while the processes of `output` run,
/// the processes that ran on from the state before, the estimate `h` of
/// what the state is worth, the time at which it begins, and `f`, the
/// estimate less the time.
#[derive(Debug, PartialEq, Eq)]
pub struct Node {
    pub parent: usize,
    pub inventory: Inventory,
    pub input: Vec<Running>,
    pub output: Vec<Running>,
    pub h: i64,
    pub time: usize,
    pub f: i128,
}

/// Whether two lists hold the same resources in the same order.
pub fn same_resources(left: &Vec<Resource>, right: &Vec<Resource>) -> (res: bool)
    ensures
        res == (left.deep_view() == right.deep_view()),
{
    if left.len() != right.len() {
        proof {
            assert(left.deep_view().len() != right.deep_view().len());
        }
        return false;
    }
    let mut i: usize = 0;
    while i < left.len()
        invariant
            i <= left@.len(),
            left@.len() == right@.len(),
            forall|k: int| 0 <= k < i ==> left.deep_view()[k] == right.deep_view()[k],
        decreases left@.len() - i,
    {
        if left[i].name != right[i].name || left[i].quantity != right[i].quantity {
            proof {
                assert(left.deep_view()[i as int] != right.deep_view()[i as int]);
            }
            return false;
        }
        i += 1;
    }
    proof {
        assert(left.deep_view() =~= right.deep_view());
    }
    true
}

/// Whether two processes are the same in name, input, output and duration.
pub fn same_process(left: &Process, right: &Process) -> (res: bool)
    ensures
        res == (left@ == right@),
{
    left.name == right.name && left.duration == right.duration && same_resources(
        &left.input,
        &right.input,
    ) && same_resources(&left.output, &right.output)
}

/// Whether `running` stands in `among`.
pub fn is_running_in(running: &Running, among: &Vec<Running>) -> (res: bool)
    ensures
        res == among.deep_view().contains(running.deep_view()),
{
    let mut i: usize = 0;
    while i < among.len()
        invariant
            i <= among@.len(),
            forall|k: int| 0 <= k < i ==> among.deep_view()[k] != running.deep_view(),
        decreases among@.len() - i,
    {
        if same_process(&among[i].0, &running.0) && among[i].1 == running.1 {
            proof {
                assert(among.deep_view()[i as int] == running.deep_view());
            }
            return true;
        }
        i += 1;
    }
    false
}

/// A copy of a running process.
pub fn clone_running(running: &Running) -> (res: Running)
    ensures
        res.deep_view() == running.deep_view(),
{
    (running.0.clone(), running.1)
}

/// A copy of a list of running processes.
pub fn clone_runnings(list: &Vec<Running>) -> (res: Vec<Running>)
    ensures
        res.deep_view() == list.deep_view(),
{
    let mut res: Vec<Running> = Vec::new();
    let mut i: usize = 0;
    while i < list.len()
        invariant
            i <= list@.len(),
            res@.len() == i,
            forall|k: int| 0 <= k < i ==> (#[trigger] res@[k]).deep_view() == list@[k].deep_view(),
        decreases list@.len() - i,
    {
        res.push(clone_running(&list[i]));
        i += 1;
    }
    proof {
        assert(res.deep_view() =~= list.deep_view());
    }
    res
}

/// The items of `list` that do not stand in `among`, in order.
pub open spec fn absent_from(list: Seq<RunningView>, among: Seq<RunningView>) -> Seq<RunningView>
    decreases list.len(),
{
    if list.len() == 0 {
        Seq::empty()
    } else {
        let before = absent_from(list.drop_last(), among);
        if among.contains(list.last()) {
            before
        } else {
            before.push(list.last())
        }
    }
}

/// The items of `list` that end at `time` or before, in order.
pub open spec fn ended_by(list: Seq<RunningView>, time: usize) -> Seq<RunningView>
    decreases list.len(),
{
    if list.len() == 0 {
        Seq::empty()
    } else {
        let before = ended_by(list.drop_last(), time);
        if list.last().1 <= time {
            before.push(list.last())
        } else {
            before
        }
    }
}

/// The items of `list` that end after `time`, in order.
pub open spec fn running_after(list: Seq<RunningView>, time: usize) -> Seq<RunningView>
    decreases list.len(),
{
    if list.len() == 0 {
        Seq::empty()
    } else {
        let before = running_after(list.drop_last(), time);
        if list.last().1 <= time {
            before
        } else {
            before.push(list.last())
        }
    }
}

/// The processes among the first `n` of the catalog that can start on
/// `stock` at `time`, each with the time at which it would end: those whose
/// input the stock covers and whose end is a time of the machine.
pub open spec fn startable_upto(processes: Seq<ProcessView>, n: int, stock: Stock, time: usize) -> Seq<
    RunningView,
>
    decreases n,
{
    if n <= 0 {
        Seq::empty()
    } else {
        let before = startable_upto(processes, n - 1, stock, time);
        let process = processes[n - 1];
        if feasible_spec(process.input, stock) && process.duration + time <= usize::MAX {
            before.push((process, (process.duration + time) as usize))
        } else {
            before
        }
    }
}

/// The processes of the catalog that can start on `stock` at `time`.
pub open spec fn startable_spec(processes: Seq<ProcessView>, stock: Stock, time: usize) -> Seq<
    RunningView,
> {
    startable_upto(processes, processes.len() as int, stock, time)
}

impl Node {
    /// A node with the given fields; `f` is the estimate less the time.
    pub fn new(
        parent: usize,
        inventory: Inventory,
        input: Vec<Running>,
        output: Vec<Running>,
        h: i64,
        time: usize,
    ) -> (res: Self)
        ensures
            res.parent == parent,
            res.inventory == inventory,
            res.input == input,
            res.output == output,
            res.h == h,
            res.time == time,
            res.f == h - time,
    {
        Node { parent, inventory, input, output, h, time, f: h as i128 - time as i128 }
    }

    /// The processes that this node starts: those of its output that did
    /// not run on from the state before.
    pub fn get_transversal_processes(&self) -> (res: Vec<Running>)
        ensures
            res.deep_view() == absent_from(self.output.deep_view(), self.input.deep_view()),
    {
        let ghost all = self.output.deep_view();
        let ghost among = self.input.deep_view();
        let mut res: Vec<Running> = Vec::new();
        let mut i: usize = 0;
        proof {
            assert(res.deep_view() =~= absent_from(all.take(0), among));
        }
        while i < self.output.len()
            invariant
                i <= self.output@.len(),
                all == self.output.deep_view(),
                among == self.input.deep_view(),
                res.deep_view() == absent_from(all.take(i as int), among),
            decreases self.output@.len() - i,
        {
            let ghost before = res.deep_view();
            proof {
                assert(all.take(i + 1).drop_last() =~= all.take(i as int));
                assert(all.take(i + 1).last() == self.output@[i as int].deep_view());
            }
            if !is_running_in(&self.output[i], &self.input) {
                let copy = clone_running(&self.output[i]);
                res.push(copy);
                proof {
                    assert(res.deep_view() =~= before.push(all[i as int]));
                }
            }
            i += 1;
        }
        proof {
            assert(all.take(all.len() as int) =~= all);
        }
        res
    }

    /// Parts `processes` into those that have ended by `time` and those
    /// that still run.
    pub fn separate_finished_processes(processes: &Vec<Running>, time: usize) -> (res: (
        Vec<Running>,
        Vec<Running>,
    ))
        ensures
            res.0.deep_view() == ended_by(processes.deep_view(), time),
            res.1.deep_view() == running_after(processes.deep_view(), time),
    {
        let ghost all = processes.deep_view();
        let mut finished: Vec<Running> = Vec::new();
        let mut active: Vec<Running> = Vec::new();
        let mut i: usize = 0;
        proof {
            assert(finished.deep_view() =~= ended_by(all.take(0), time));
            assert(active.deep_view() =~= running_after(all.take(0), time));
        }
        while i < processes.len()
            invariant
                i <= processes@.len(),
                all == processes.deep_view(),
                finished.deep_view() == ended_by(all.take(i as int), time),
                active.deep_view() == running_after(all.take(i as int), time),
            decreases processes@.len() - i,
        {
            let ghost done = finished.deep_view();
            let ghost going = active.deep_view();
            proof {
                assert(all.take(i + 1).drop_last() =~= all.take(i as int));
                assert(all.take(i + 1).last() == processes@[i as int].deep_view());
            }
            let copy = clone_running(&processes[i]);
            if processes[i].1 <= time {
                finished.push(copy);
                proof {
                    assert(finished.deep_view() =~= done.push(all[i as int]));
                }
            } else {
                active.push(copy);
                proof {
                    assert(active.deep_view() =~= going.push(all[i as int]));
                }
            }
            i += 1;
        }
        proof {
            assert(all.take(all.len() as int) =~= all);
        }
        (finished, active)
    }

    /// The processes of `simulation` that can start on `inventory` at
    /// `time`, each with the time at which it would end.
    pub fn get_available_processes(inventory: &Inventory, simulation: &Simulation, time: usize) -> (res:
        Vec<Running>)
        ensures
            res.deep_view() == startable_spec(simulation@.processes, inventory@, time),
    {
        let ghost all = simulation@.processes;
        let mut res: Vec<Running> = Vec::new();
        let mut i: usize = 0;
        proof {
            assert(res.deep_view() =~= startable_upto(all, 0, inventory@, time));
        }
        while i < simulation.processes.len()
            invariant
                i <= simulation.processes@.len(),
                all == simulation@.processes,
                res.deep_view() == startable_upto(all, i as int, inventory@, time),
            decreases simulation.processes@.len() - i,
        {
            let ghost before = res.deep_view();
            let process = &simulation.processes[i];
            if is_feasible(&process.input, inventory) && process.duration <= usize::MAX - time {
                res.push((process.clone(), process.duration + time));
                proof {
                    assert(res.deep_view() =~= before.push(
                        (all[i as int], (all[i as int].duration + time) as usize),
                    ));
                }
            }
            i += 1;
        }
        res
    }
}

/// A set of processes started together, with the stock that is left while
/// they run.
pub type Started = (Vec<Running>, Inventory);

/// The mathematical value of a [`Started`].
pub type StartedView = (Seq<RunningView>, Stock);

/// The sets of processes that can be started on `stock` at `time` beyond
/// those of `actual`, at most `depth` more, added to `found`. First
/// `actual` itself is noted with `stock`; then every process that can start
/// on `stock` is tried in catalog order by [`explore_each`].
pub open spec fn explore_spec(
    processes: Seq<ProcessView>,
    found: Seq<StartedView>,
    actual: Seq<RunningView>,
    stock: Stock,
    time: usize,
    depth: nat,
) -> Seq<StartedView>
    decreases depth, 1nat, 0nat,
{
    let noted = found.push((actual, stock));
    if depth == 0 {
        noted
    } else {
        explore_each(
            processes,
            startable_spec(processes, stock, time),
            0,
            noted,
            actual,
            stock,
            time,
            depth,
        )
    }
}

/// Tries the processes of `available` from the one at `k` on. A process
/// joins `actual` where `actual` is empty or its last process ends no
/// earlier, and where `stock` covers its input; the sets that can be
/// started beyond the longer `actual`, on what is left of `stock`, are then
/// explored with a depth of one less. A process that has joined stays in
/// `actual` for the processes tried after it.
pub open spec fn explore_each(
    processes: Seq<ProcessView>,
    available: Seq<RunningView>,
    k: int,
    found: Seq<StartedView>,
    actual: Seq<RunningView>,
    stock: Stock,
    time: usize,
    depth: nat,
) -> Seq<StartedView>
    decreases depth, 0nat, available.len() - k,
{
    if k < 0 || k >= available.len() || depth == 0 {
        found
    } else {
        let joins = actual.len() == 0 || available[k].1 <= actual.last().1;
        match consume_spec(available[k].0.input, stock) {
            Ok(left) => if joins {
                let longer = actual.push(available[k]);
                explore_each(
                    processes,
                    available,
                    k + 1,
                    explore_spec(processes, found, longer, left, time, (depth - 1) as nat),
                    longer,
                    stock,
                    time,
                    depth,
                )
            } else {
                explore_each(processes, available, k + 1, found, actual, stock, time, depth)
            },
            Err(_) => explore_each(processes, available, k + 1, found, actual, stock, time, depth),
        }
    }
}

impl Node {
    /// Adds to `acc` the sets of processes that can be started on
    /// `inventory` at `time` beyond those of `actual`, at most `depth`
    /// more.
    pub fn get_possible_outputs_closure(
        acc: Vec<Started>,
        actual: Vec<Running>,
        inventory: Inventory,
        simulation: &Simulation,
        time: usize,
        depth: usize,
    ) -> (res: Vec<Started>)
        ensures
            res.deep_view() == explore_spec(
                simulation@.processes,
                acc.deep_view(),
                actual.deep_view(),
                inventory@,
                time,
                depth as nat,
            ),
        decreases depth,
    {
        let ghost processes = simulation@.processes;
        let ghost found = acc.deep_view();
        let ghost first = actual.deep_view();
        let ghost stock = inventory@;
        let mut acc = acc;
        let mut actual = actual;
        acc.push((clone_runnings(&actual), inventory.clone()));
        proof {
            assert(acc.deep_view() =~= found.push((first, stock)));
        }
        if depth == 0 {
            return acc;
        }
        let available = Self::get_available_processes(&inventory, simulation, time);
        let ghost all = available.deep_view();
        let mut k: usize = 0;
        while k < available.len()
            invariant
                k <= available@.len(),
                depth > 0,
                processes == simulation@.processes,
                stock == inventory@,
                all == available.deep_view(),
                explore_spec(processes, found, first, stock, time, depth as nat) == explore_each(
                    processes,
                    all,
                    k as int,
                    acc.deep_view(),
                    actual.deep_view(),
                    stock,
                    time,
                    depth as nat,
                ),
            decreases available@.len() - k,
        {
            let ghost held = actual.deep_view();
            proof {
                assert(all[k as int] == available@[k as int].deep_view());
                if held.len() > 0 {
                    assert(held.last() == actual@[actual@.len() - 1].deep_view());
                }
            }
            let joins = actual.len() == 0 || available[k].1 <= actual[actual.len() - 1].1;
            match consume_resources(&available[k].0.input, inventory.clone()) {
                Ok(left) => {
                    if joins {
                        actual.push(clone_running(&available[k]));
                        proof {
                            assert(actual.deep_view() =~= held.push(all[k as int]));
                        }
                        acc = Self::get_possible_outputs_closure(
                            acc,
                            clone_runnings(&actual),
                            left,
                            simulation,
                            time,
                            depth - 1,
                        );
                    }
                },
                Err(_) => {},
            }
            k += 1;
        }
        acc
    }

    /// The sets of at most `depth` processes that can be started together
    /// on `inventory` at `time`, each with the stock that is left while its
    /// processes run. The empty set comes first.
    pub fn get_possible_outputs(
        inventory: &Inventory,
        simulation: &Simulation,
        time: usize,
        depth: usize,
    ) -> (res: Vec<Started>)
        ensures
            res.deep_view() == explore_spec(
                simulation@.processes,
                Seq::empty(),
                Seq::empty(),
                inventory@,
                time,
                depth as nat,
            ),
    {
        let acc: Vec<Started> = Vec::new();
        let actual: Vec<Running> = Vec::new();
        proof {
            assert(acc.deep_view() =~= Seq::<StartedView>::empty());
            assert(actual.deep_view() =~= Seq::<RunningView>::empty());
        }
        Self::get_possible_outputs_closure(acc, actual, inventory.clone(), simulation, time, depth)
    }
}

/// The mathematical value of a [`Node`].
pub struct NodeView {
    pub parent: usize,
    pub inventory: Stock,
    pub input: Seq<RunningView>,
    pub output: Seq<RunningView>,
    pub h: i64,
    pub time: usize,
    pub f: int,
}

impl DeepView for Node {
    type V = NodeView;

    open spec fn deep_view(&self) -> NodeView {
        NodeView {
            parent: self.parent,
            inventory: self.inventory@,
            input: self.input.deep_view(),
            output: self.output.deep_view(),
            h: self.h,
            time: self.time,
            f: self.f as int,
        }
    }
}

/// The earliest end among `list`; 0 for none.
pub open spec fn earliest_end(list: Seq<RunningView>) -> usize
    decreases list.len(),
{
    if list.len() == 0 {
        0
    } else if list.len() == 1 {
        list[0].1
    } else {
        let before = earliest_end(list.drop_last());
        if list.last().1 < before {
            list.last().1
        } else {
            before
        }
    }
}

/// The names and quantities of `list`, in order.
pub open spec fn pairs_of(list: Seq<ResourceView>) -> Seq<(Seq<char>, usize)> {
    Seq::new(list.len(), |i: int| (list[i].name, list[i].quantity as usize))
}

/// The stock after the processes of `finished` handed in their output, one
/// after the other: every entry of the stock is raised by what the output
/// holds under its name, and names that the stock does not hold are not
/// taken in. `None` where a quantity leaves `usize`.
pub open spec fn collected_spec(finished: Seq<RunningView>, stock: Stock) -> Option<Stock>
    decreases finished.len(),
{
    if finished.len() == 0 {
        Some(stock)
    } else {
        let handed = convert_spec(pairs_of(finished[0].0.output));
        if sums_fit(stock, handed) {
            collected_spec(finished.skip(1), inventory_add_spec(stock, handed))
        } else {
            None
        }
    }
}

/// The child of `node` that starts the set `started` at `time`, as the
/// child number of the node `id`: it keeps the estimate of `node`.
pub open spec fn child_spec(node: NodeView, id: usize, time: usize, started: StartedView) -> NodeView {
    NodeView {
        parent: id,
        inventory: started.1,
        input: running_after(node.output, time),
        output: started.0,
        h: node.h,
        time,
        f: node.h - time,
    }
}

/// The names and quantities of `list`, in order.
pub fn resource_pairs(list: &Vec<Resource>) -> (res: Vec<(String, usize)>)
    ensures
        res.deep_view() == pairs_of(list.deep_view()),
{
    let mut res: Vec<(String, usize)> = Vec::new();
    let mut i: usize = 0;
    while i < list.len()
        invariant
            i <= list@.len(),
            res@.len() == i,
            forall|k: int|
                0 <= k < i ==> (#[trigger] res@[k]).0@ == list@[k].name@ && res@[k].1
                    == list@[k].quantity,
        decreases list@.len() - i,
    {
        res.push((list[i].name.clone(), list[i].quantity));
        i += 1;
    }
    proof {
        assert(res.deep_view() =~= pairs_of(list.deep_view()));
    }
    res
}

/// The earliest end among `list`; 0 for none.
pub fn first_end(list: &Vec<Running>) -> (res: usize)
    ensures
        res == earliest_end(list.deep_view()),
{
    if list.len() == 0 {
        return 0;
    }
    let ghost all = list.deep_view();
    let mut best: usize = list[0].1;
    let mut i: usize = 1;
    proof {
        assert(all.take(1).len() == 1);
        assert(all.take(1)[0] == list@[0].deep_view());
    }
    while i < list.len()
        invariant
            1 <= i <= list@.len(),
            all == list.deep_view(),
            best == earliest_end(all.take(i as int)),
        decreases list@.len() - i,
    {
        proof {
            assert(all.take(i + 1).drop_last() =~= all.take(i as int));
            assert(all.take(i + 1).last() == list@[i as int].deep_view());
        }
        if list[i].1 < best {
            best = list[i].1;
        }
        i += 1;
    }
    proof {
        assert(all.take(all.len() as int) =~= all);
    }
    best
}

impl Node {
    /// The nodes that follow this one. Time moves on to the earliest end
    /// among the processes that this node runs; those that have ended by
    /// then hand in their output, and every set of at most `depth`
    /// processes that can be started together on the stock so reached is
    /// one child. A child runs on the processes that have not ended, has
    /// `id` as its parent and keeps the estimate of this node. `None` where
    /// a quantity of the stock leaves `usize`.
    pub fn get_childs(&self, simulation: &Simulation, id: usize, depth: usize) -> (res: Option<
        Vec<Node>,
    >)
        ensures
            match res {
                None => collected_spec(
                    ended_by(self.output.deep_view(), earliest_end(self.output.deep_view())),
                    self.inventory@,
                ) is None,
                Some(nodes) => {
                    let time = earliest_end(self.output.deep_view());
                    let reached = collected_spec(
                        ended_by(self.output.deep_view(), time),
                        self.inventory@,
                    );
                    &&& reached is Some
                    &&& nodes.deep_view() == explore_spec(
                        simulation@.processes,
                        Seq::empty(),
                        Seq::empty(),
                        reached->Some_0,
                        time,
                        depth as nat,
                    ).map_values(|set: StartedView| child_spec(self.deep_view(), id, time, set))
                },
            },
    {
        let time = first_end(&self.output);
        let (finished, input) = Self::separate_finished_processes(&self.output, time);
        let ghost ended = finished.deep_view();
        let mut new_inventory = self.inventory.clone();
        let mut i: usize = 0;
        proof {
            assert(ended.skip(0) =~= ended);
        }
        while i < finished.len()
            invariant
                i <= finished@.len(),
                ended == finished.deep_view(),
                time == earliest_end(self.output.deep_view()),
                ended == ended_by(self.output.deep_view(), time),
                collected_spec(ended, self.inventory@) == collected_spec(
                    ended.skip(i as int),
                    new_inventory@,
                ),
            decreases finished@.len() - i,
        {
            proof {
                assert(ended.skip(i as int)[0] == finished@[i as int].deep_view());
                assert(ended.skip(i as int).skip(1) =~= ended.skip(i + 1));
            }
            let handed = convert(resource_pairs(&finished[i].0.output));
            match inventory_add(&new_inventory, &handed) {
                Some(sum) => {
                    new_inventory = sum;
                },
                None => {
                    return None;
                },
            }
            i += 1;
        }
        let mut possible_output = Self::get_possible_outputs(&new_inventory, simulation, time, depth);
        let ghost sets = possible_output.deep_view();
        let ghost me = self.deep_view();
        let mut nodes: Vec<Node> = Vec::new();
        let mut k: usize = 0;
        while k < possible_output.len()
            invariant
                k <= possible_output@.len(),
                sets == possible_output.deep_view(),
                me == self.deep_view(),
                input.deep_view() == running_after(me.output, time),
                nodes@.len() == k,
                forall|j: int|
                    0 <= j < k ==> (#[trigger] nodes@[j]).deep_view() == child_spec(
                        me,
                        id,
                        time,
                        sets[j],
                    ),
            decreases possible_output@.len() - k,
        {
            let output = clone_runnings(&possible_output[k].0);
            let inventory = possible_output[k].1.clone();
            proof {
                assert(sets[k as int] == (
                    possible_output@[k as int].0.deep_view(),
                    possible_output@[k as int].1@,
                ));
            }
            nodes.push(Node::new(id, inventory, clone_runnings(&input), output, self.h, time));
            k += 1;
        }
        proof {
            assert(nodes.deep_view() =~= sets.map_values(
                |set: StartedView| child_spec(me, id, time, set),
            ));
        }
        Some(nodes)
    }
}

impl PartialOrd for Node {
    /// Nodes are ordered by their estimates alone.
    fn partial_cmp(&self, other: &Node) -> (res: Option<Ordering>) {
        if self.h < other.h {
            Some(Ordering::Less)
        } else if self.h > other.h {
            Some(Ordering::Greater)
        } else {
            Some(Ordering::Equal)
        }
    }
}

impl vstd::std_specs::cmp::PartialOrdSpecImpl for Node {
    open spec fn obeys_partial_cmp_spec() -> bool {
        true
    }

    open spec fn partial_cmp_spec(&self, other: &Node) -> Option<Ordering> {
        if self.h < other.h {
            Some(Ordering::Less)
        } else if self.h > other.h {
            Some(Ordering::Greater)
        } else {
            Some(Ordering::Equal)
        }
    }
}

} // verus!
