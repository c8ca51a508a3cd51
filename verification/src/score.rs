//! The fitness model: weights of resources drawn from the dependency graph
//! of the processes, and the score of a path under them.

use vstd::prelude::*;
use crate::ast::{ProcessView, Resource, ResourceView, Simulation, SimulationView};
use crate::error::{Error, Failure};
use crate::inventory::{Inventory, Stock};
use crate::simulate::{simulate, simulate_path_spec};
use crate::solver::Path;
use crate::utils::is_in_names;

verus! {

/// A fitness, or the weight of a resource in one.
pub type Score = i64;

/// Weights by resource name, in the order in which the names were first
/// recorded. The first entry under a name is the one that counts.
pub type Weights = Seq<(Seq<char>, Score)>;

/// The position of the first entry of `weights` under `name`.
pub open spec fn first_index(weights: Weights, name: Seq<char>) -> Option<int>
    decreases weights.len(),
{
    if weights.len() == 0 {
        None
    } else if weights[0].0 == name {
        Some(0)
    } else {
        match first_index(weights.skip(1), name) {
            Some(i) => Some(i + 1),
            None => None,
        }
    }
}

/// The weight that `weights` gives to `name`.
pub open spec fn weight_of(weights: Weights, name: Seq<char>) -> Option<Score> {
    match first_index(weights, name) {
        Some(i) => Some(weights[i].1),
        None => None,
    }
}

/// `weights` with `weight` put under `name`, whatever stood there.
pub open spec fn force_spec(weights: Weights, name: Seq<char>, weight: Score) -> Weights {
    match first_index(weights, name) {
        Some(i) => weights.update(i, (name, weight)),
        None => weights.push((name, weight)),
    }
}

/// `weights` after `weight` was observed for `name`: the greater of it and
/// what stood there is kept.
pub open spec fn record_spec(weights: Weights, name: Seq<char>, weight: Score) -> Weights {
    match first_index(weights, name) {
        Some(i) => if weights[i].1 < weight {
            weights.update(i, (name, weight))
        } else {
            weights
        },
        None => weights.push((name, weight)),
    }
}

/// The greatest weight in `weights`; 1 where there is none.
pub open spec fn max_weight_spec(weights: Weights) -> Score
    decreases weights.len(),
{
    if weights.len() == 0 {
        1
    } else if weights.len() == 1 {
        weights[0].1
    } else {
        let rest = max_weight_spec(weights.drop_last());
        if weights.last().1 > rest {
            weights.last().1
        } else {
            rest
        }
    }
}

/// The first index is a position of `name`, and no earlier one is.
pub proof fn lemma_first_index(weights: Weights, name: Seq<char>)
    ensures
        match first_index(weights, name) {
            Some(i) => 0 <= i < weights.len() && weights[i].0 == name && forall|k: int|
                0 <= k < i ==> (#[trigger] weights[k]).0 != name,
            None => forall|k: int| 0 <= k < weights.len() ==> (#[trigger] weights[k]).0 != name,
        },
    decreases weights.len(),
{
    if weights.len() > 0 && weights[0].0 != name {
        lemma_first_index(weights.skip(1), name);
        let tail = weights.skip(1);
        match first_index(tail, name) {
            Some(i) => {
                assert forall|k: int| 0 <= k < i + 1 implies (#[trigger] weights[k]).0 != name by {
                    if k > 0 {
                        assert(tail[k - 1] == weights[k]);
                    }
                }
            },
            None => {
                assert forall|k: int| 0 <= k < weights.len() implies (#[trigger] weights[k]).0
                    != name by {
                    if k > 0 {
                        assert(tail[k - 1] == weights[k]);
                    }
                }
            },
        }
    }
}

/// A position of `name` before which `name` does not stand is its first
/// index.
pub proof fn lemma_first_index_is(weights: Weights, name: Seq<char>, i: int)
    requires
        0 <= i < weights.len(),
        weights[i].0 == name,
        forall|k: int| 0 <= k < i ==> (#[trigger] weights[k]).0 != name,
    ensures
        first_index(weights, name) == Some(i),
{
    lemma_first_index(weights, name);
}

/// Where `name` stands nowhere, it has no first index.
pub proof fn lemma_first_index_none(weights: Weights, name: Seq<char>)
    requires
        forall|k: int| 0 <= k < weights.len() ==> (#[trigger] weights[k]).0 != name,
    ensures
        first_index(weights, name) is None,
{
    lemma_first_index(weights, name);
}

/// Weights of resources by name.
#[derive(Debug)]
pub struct ScoreMap {
    entries: Vec<(String, Score)>,
}

impl View for ScoreMap {
    type V = Weights;

    closed spec fn view(&self) -> Weights {
        self.entries.deep_view()
    }
}

impl Clone for ScoreMap {
    fn clone(&self) -> (res: Self)
        ensures
            res@ == self@,
    {
        let mut entries: Vec<(String, Score)> = Vec::new();
        let mut i: usize = 0;
        while i < self.entries.len()
            invariant
                i <= self.entries@.len(),
                entries@.len() == i,
                forall|k: int|
                    0 <= k < i ==> (#[trigger] entries@[k]).0@ == self.entries@[k].0@
                        && entries@[k].1 == self.entries@[k].1,
            decreases self.entries@.len() - i,
        {
            entries.push((self.entries[i].0.clone(), self.entries[i].1));
            i += 1;
        }
        let res = ScoreMap { entries };
        proof {
            assert(res@ =~= self@);
        }
        res
    }
}

impl ScoreMap {
    /// The map without any weight.
    pub fn new() -> (res: Self)
        ensures
            res@ == Seq::<(Seq<char>, Score)>::empty(),
    {
        let res = ScoreMap { entries: Vec::new() };
        assert(res@ =~= Seq::<(Seq<char>, Score)>::empty());
        res
    }

    /// The number of entries.
    pub fn len(&self) -> (res: usize)
        ensures
            res == self@.len(),
    {
        self.entries.len()
    }

    /// The name of the entry at `i`.
    pub fn name_at(&self, i: usize) -> (res: &String)
        requires
            i < self@.len(),
        ensures
            res@ == self@[i as int].0,
    {
        &self.entries[i].0
    }

    /// The weight of the entry at `i`.
    pub fn weight_at(&self, i: usize) -> (res: Score)
        requires
            i < self@.len(),
        ensures
            res == self@[i as int].1,
    {
        self.entries[i].1
    }

    fn find(&self, name: &String) -> (res: Option<usize>)
        ensures
            match res {
                Some(i) => first_index(self@, name@) == Some(i as int) && i < self@.len(),
                None => first_index(self@, name@) is None,
            },
    {
        let mut i: usize = 0;
        while i < self.entries.len()
            invariant
                i <= self.entries@.len(),
                forall|k: int| 0 <= k < i ==> (#[trigger] self@[k]).0 != name@,
            decreases self.entries@.len() - i,
        {
            if self.entries[i].0 == *name {
                proof {
                    lemma_first_index_is(self@, name@, i as int);
                }
                return Some(i);
            }
            i += 1;
        }
        proof {
            lemma_first_index_none(self@, name@);
        }
        None
    }

    /// The weight of `name`, if it has one.
    pub fn get(&self, name: &String) -> (res: Option<Score>)
        ensures
            res == weight_of(self@, name@),
    {
        match self.find(name) {
            Some(i) => Some(self.entries[i].1),
            None => None,
        }
    }

    /// Puts `weight` under `name`, whatever stood there.
    pub fn force(&mut self, name: String, weight: Score)
        ensures
            final(self)@ == force_spec(old(self)@, name@, weight),
    {
        let ghost before = self@;
        match self.find(&name) {
            Some(i) => {
                self.entries[i] = (name, weight);
                proof {
                    assert(self@ =~= before.update(i as int, (name@, weight)));
                }
            },
            None => {
                self.entries.push((name, weight));
                proof {
                    assert(self@ =~= before.push((name@, weight)));
                }
            },
        }
    }

    /// Observes `weight` for `name`: the greater of it and the weight that
    /// `name` had is kept.
    pub fn record(&mut self, name: String, weight: Score)
        ensures
            final(self)@ == record_spec(old(self)@, name@, weight),
    {
        let ghost before = self@;
        match self.find(&name) {
            Some(i) => {
                if self.entries[i].1 < weight {
                    self.entries[i] = (name, weight);
                    proof {
                        assert(self@ =~= before.update(i as int, (name@, weight)));
                    }
                }
            },
            None => {
                self.entries.push((name, weight));
                proof {
                    assert(self@ =~= before.push((name@, weight)));
                }
            },
        }
    }

    /// The greatest weight of the map; 1 for the empty map.
    pub fn max_weight(&self) -> (res: Score)
        ensures
            res == max_weight_spec(self@),
    {
        if self.entries.len() == 0 {
            return 1;
        }
        let mut best: Score = self.entries[0].1;
        let mut i: usize = 1;
        proof {
            assert(self@.take(1).len() == 1);
        }
        while i < self.entries.len()
            invariant
                1 <= i <= self.entries@.len(),
                best == max_weight_spec(self@.take(i as int)),
            decreases self.entries@.len() - i,
        {
            proof {
                assert(self@.take(i + 1).drop_last() =~= self@.take(i as int));
                assert(self@.take(i + 1).last() == self@[i as int]);
            }
            if self.entries[i].1 > best {
                best = self.entries[i].1;
            }
            i += 1;
        }
        proof {
            assert(self@.take(self@.len() as int) =~= self@);
        }
        best
    }
}

/// The names of `list`, in order.
pub open spec fn resource_names(list: Seq<ResourceView>) -> Seq<Seq<char>> {
    Seq::new(list.len(), |i: int| list[i].name)
}

/// The names of `list` other than `name`, in order.
pub open spec fn without(list: Seq<Seq<char>>, name: Seq<char>) -> Seq<Seq<char>>
    decreases list.len(),
{
    if list.len() == 0 {
        Seq::empty()
    } else if list.last() == name {
        without(list.drop_last(), name)
    } else {
        without(list.drop_last(), name).push(list.last())
    }
}

/// What `processes` put out, by name: for each process in order, the names
/// of its output.
pub open spec fn produced_names(processes: Seq<ProcessView>) -> Seq<Seq<char>>
    decreases processes.len(),
{
    if processes.len() == 0 {
        Seq::empty()
    } else {
        produced_names(processes.drop_last()) + resource_names(processes.last().output)
    }
}

/// The dependencies of the resource `name`: for each process that puts
/// `name` out, in order, the names of its input other than `name` itself.
pub open spec fn dependencies_spec(processes: Seq<ProcessView>, name: Seq<char>) -> Seq<Seq<char>>
    decreases processes.len(),
{
    if processes.len() == 0 {
        Seq::empty()
    } else {
        let last = processes.last();
        let before = dependencies_spec(processes.drop_last(), name);
        if resource_names(last.output).contains(name) {
            before + without(resource_names(last.input), name)
        } else {
            before
        }
    }
}

/// Removing a name never lengthens a list, and shortens one that holds it.
pub proof fn lemma_without_shorter(list: Seq<Seq<char>>, name: Seq<char>)
    ensures
        without(list, name).len() <= list.len(),
        list.contains(name) ==> without(list, name).len() < list.len(),
    decreases list.len(),
{
    if list.len() > 0 {
        lemma_without_shorter(list.drop_last(), name);
        if list.contains(name) && list.last() != name {
            let i = choose|i: int| 0 <= i < list.len() && list[i] == name;
            assert(list.drop_last()[i] == name);
        }
    }
}

/// Ten times `weight`, where that is a score.
pub open spec fn tenfold(weight: Score) -> Option<Score> {
    if 10 * weight > i64::MAX || 10 * weight < i64::MIN {
        None
    } else {
        Some((10 * weight) as Score)
    }
}

/// Walks `dependencies` in order and records a weight for each. A
/// dependency that is not in `expandable`, or has no dependencies of its
/// own, weighs 1. Any other is expanded: its own dependencies are walked
/// with it taken out of `expandable`, and it weighs ten times the greatest
/// weight found among them. `expandable` holds the produced resources that
/// the current branch has not expanded yet, so no branch expands a resource
/// twice. Gives the weights after the walk and the greater of `best` and
/// the weights found for `dependencies`.
pub open spec fn walk_spec(
    processes: Seq<ProcessView>,
    dependencies: Seq<Seq<char>>,
    expandable: Seq<Seq<char>>,
    weights: Weights,
    best: Score,
) -> Result<(Weights, Score), Failure>
    decreases expandable.len(), dependencies.len(),
{
    if dependencies.len() == 0 {
        Ok((weights, best))
    } else {
        let name = dependencies[0];
        let below = dependencies_spec(processes, name);
        let weighed: Result<(Weights, Score), Failure> = if below.len() == 0
            || !expandable.contains(name) {
            Ok((weights, 1))
        } else {
            proof {
                lemma_without_shorter(expandable, name);
            }
            match walk_spec(processes, below, without(expandable, name), weights, 0) {
                Err(failure) => Err(failure),
                Ok((deeper, weight)) => match tenfold(weight) {
                    None => Err(Failure::Overflow(name)),
                    Some(scaled) => Ok((deeper, scaled)),
                },
            }
        };
        match weighed {
            Err(failure) => Err(failure),
            Ok((deeper, weight)) => walk_spec(
                processes,
                dependencies.skip(1),
                expandable,
                record_spec(deeper, name, weight),
                if weight > best {
                    weight
                } else {
                    best
                },
            ),
        }
    }
}

/// The weights after the dependencies of every target were walked, target
/// after target. A target counts as expanded on its own branches.
pub open spec fn walk_targets_spec(
    processes: Seq<ProcessView>,
    targets: Seq<Seq<char>>,
    weights: Weights,
) -> Result<Weights, Failure>
    decreases targets.len(),
{
    if targets.len() == 0 {
        Ok(weights)
    } else {
        let below = dependencies_spec(processes, targets[0]);
        match walk_spec(
            processes,
            below,
            without(produced_names(processes), targets[0]),
            weights,
            0,
        ) {
            Err(failure) => Err(failure),
            Ok((walked, _)) => walk_targets_spec(processes, targets.skip(1), walked),
        }
    }
}

/// `weights` with `weight` forced on every target.
pub open spec fn force_targets_spec(targets: Seq<Seq<char>>, weights: Weights, weight: Score) -> Weights
    decreases targets.len(),
{
    if targets.len() == 0 {
        weights
    } else {
        force_targets_spec(targets.skip(1), force_spec(weights, targets[0], weight), weight)
    }
}

/// The dependency-weighted score map of a catalog: the weights that the
/// walk from the targets records, and on every target the greatest of them
/// times `multiplier`.
pub open spec fn weighted_map_spec(simulation: SimulationView, multiplier: Score) -> Result<
    Weights,
    Failure,
> {
    match walk_targets_spec(simulation.processes, simulation.optimize, Seq::empty()) {
        Err(failure) => Err(failure),
        Ok(walked) => {
            let top = max_weight_spec(walked);
            if top * multiplier > i64::MAX || top * multiplier < i64::MIN {
                Err(Failure::Overflow("weight"@))
            } else {
                Ok(force_targets_spec(simulation.optimize, walked, (top * multiplier) as Score))
            }
        },
    }
}

/// Whether a resource of `list` carries `name`.
pub fn names_resource(list: &Vec<Resource>, name: &String) -> (res: bool)
    ensures
        res == resource_names(list.deep_view()).contains(name@),
{
    let mut i: usize = 0;
    while i < list.len()
        invariant
            i <= list@.len(),
            forall|k: int| 0 <= k < i ==> resource_names(list.deep_view())[k] != name@,
        decreases list@.len() - i,
    {
        if list[i].name == *name {
            proof {
                assert(resource_names(list.deep_view())[i as int] == name@);
            }
            return true;
        }
        i += 1;
    }
    false
}

/// Appends to `into` the names of `list` other than `name`.
fn append_other_names(into: &mut Vec<String>, list: &Vec<Resource>, name: &String)
    ensures
        final(into).deep_view() == old(into).deep_view() + without(
            resource_names(list.deep_view()),
            name@,
        ),
{
    let ghost start = into.deep_view();
    let ghost names = resource_names(list.deep_view());
    let mut i: usize = 0;
    proof {
        assert(start + without(names.take(0), name@) =~= start);
    }
    while i < list.len()
        invariant
            i <= list@.len(),
            names == resource_names(list.deep_view()),
            into.deep_view() == start + without(names.take(i as int), name@),
        decreases list@.len() - i,
    {
        let ghost before = into.deep_view();
        proof {
            assert(names.take(i + 1).drop_last() =~= names.take(i as int));
            assert(names.take(i + 1).last() == list@[i as int].name@);
        }
        if list[i].name != *name {
            into.push(list[i].name.clone());
            proof {
                assert(into.deep_view() =~= before.push(list@[i as int].name@));
                assert(into.deep_view() =~= start + without(names.take(i + 1), name@));
            }
        }
        i += 1;
    }
    proof {
        assert(names.take(list@.len() as int) =~= names);
    }
}

/// Appends to `into` the names of `list`.
fn append_names(into: &mut Vec<String>, list: &Vec<Resource>)
    ensures
        final(into).deep_view() == old(into).deep_view() + resource_names(list.deep_view()),
{
    let ghost start = into.deep_view();
    let ghost names = resource_names(list.deep_view());
    let mut i: usize = 0;
    proof {
        assert(start + names.take(0) =~= start);
    }
    while i < list.len()
        invariant
            i <= list@.len(),
            names == resource_names(list.deep_view()),
            into.deep_view() == start + names.take(i as int),
        decreases list@.len() - i,
    {
        let ghost before = into.deep_view();
        into.push(list[i].name.clone());
        proof {
            assert(into.deep_view() =~= before.push(list@[i as int].name@));
            assert(into.deep_view() =~= start + names.take(i + 1));
        }
        i += 1;
    }
    proof {
        assert(names.take(list@.len() as int) =~= names);
    }
}

/// A copy of `list` without `name`.
pub fn names_without(list: &Vec<String>, name: &String) -> (res: Vec<String>)
    ensures
        res.deep_view() == without(list.deep_view(), name@),
{
    let mut res: Vec<String> = Vec::new();
    let mut i: usize = 0;
    proof {
        assert(res.deep_view() =~= without(list.deep_view().take(0), name@));
    }
    while i < list.len()
        invariant
            i <= list@.len(),
            res.deep_view() == without(list.deep_view().take(i as int), name@),
        decreases list@.len() - i,
    {
        let ghost before = res.deep_view();
        proof {
            assert(list.deep_view().take(i + 1).drop_last() =~= list.deep_view().take(i as int));
            assert(list.deep_view().take(i + 1).last() == list@[i as int]@);
        }
        if list[i] != *name {
            res.push(list[i].clone());
            proof {
                assert(res.deep_view() =~= before.push(list@[i as int]@));
            }
        }
        i += 1;
    }
    proof {
        assert(list.deep_view().take(list@.len() as int) =~= list.deep_view());
    }
    res
}

/// The names of everything that the processes of `simulation` put out.
pub fn all_produced_names(simulation: &Simulation) -> (res: Vec<String>)
    ensures
        res.deep_view() == produced_names(simulation@.processes),
{
    let mut res: Vec<String> = Vec::new();
    let ghost all = simulation@.processes;
    let mut i: usize = 0;
    proof {
        assert(res.deep_view() =~= produced_names(all.take(0)));
    }
    while i < simulation.processes.len()
        invariant
            i <= simulation.processes@.len(),
            all == simulation@.processes,
            res.deep_view() == produced_names(all.take(i as int)),
        decreases simulation.processes@.len() - i,
    {
        proof {
            assert(all.take(i + 1).drop_last() =~= all.take(i as int));
            assert(all.take(i + 1).last() == simulation.processes@[i as int]@);
        }
        append_names(&mut res, &simulation.processes[i].output);
        i += 1;
    }
    proof {
        assert(all.take(all.len() as int) =~= all);
    }
    res
}

/// The dependencies of the resource `resource_name`: the other inputs of
/// every process that puts it out. `None` where there is none.
pub fn find_dependencies(simulation: &Simulation, resource_name: &String) -> (res: Option<
    Vec<String>,
>)
    ensures
        match res {
            Some(found) => found@.len() > 0 && found.deep_view() == dependencies_spec(
                simulation@.processes,
                resource_name@,
            ),
            None => dependencies_spec(simulation@.processes, resource_name@).len() == 0,
        },
{
    let mut dependencies: Vec<String> = Vec::new();
    let ghost all = simulation@.processes;
    let mut i: usize = 0;
    proof {
        assert(dependencies.deep_view() =~= dependencies_spec(all.take(0), resource_name@));
    }
    while i < simulation.processes.len()
        invariant
            i <= simulation.processes@.len(),
            all == simulation@.processes,
            dependencies.deep_view() == dependencies_spec(all.take(i as int), resource_name@),
        decreases simulation.processes@.len() - i,
    {
        proof {
            assert(all.take(i + 1).drop_last() =~= all.take(i as int));
            assert(all.take(i + 1).last() == simulation.processes@[i as int]@);
        }
        let process = &simulation.processes[i];
        if names_resource(&process.output, resource_name) {
            append_other_names(&mut dependencies, &process.input, resource_name);
        }
        i += 1;
    }
    proof {
        assert(all.take(all.len() as int) =~= all);
    }
    if dependencies.is_empty() {
        None
    } else {
        Some(dependencies)
    }
}

/// Walks `dependencies` and records their weights in `map`; gives the
/// greatest weight found for them.
fn dive_in(
    simulation: &Simulation,
    map: &mut ScoreMap,
    dependencies: &Vec<String>,
    expandable: &Vec<String>,
) -> (res: Result<Score, Error>)
    ensures
        match walk_spec(
            simulation@.processes,
            dependencies.deep_view(),
            expandable.deep_view(),
            old(map)@,
            0,
        ) {
            Ok((weights, best)) => res == Ok::<Score, Error>(best) && final(map)@ == weights,
            Err(failure) => res is Err && res->Err_0@ == failure,
        },
    decreases expandable@.len(),
{
    let ghost processes = simulation@.processes;
    let ghost all = dependencies.deep_view();
    let ghost open = expandable.deep_view();
    let ghost start = map@;
    let mut best: Score = 0;
    let mut i: usize = 0;
    proof {
        assert(all.skip(0) =~= all);
    }
    while i < dependencies.len()
        invariant
            i <= dependencies@.len(),
            processes == simulation@.processes,
            all == dependencies.deep_view(),
            open == expandable.deep_view(),
            start == old(map)@,
            walk_spec(processes, all, open, start, 0) == walk_spec(
                processes,
                all.skip(i as int),
                open,
                map@,
                best,
            ),
        decreases dependencies@.len() - i,
    {
        let name = &dependencies[i];
        proof {
            assert(all.skip(i as int)[0] == name@);
            assert(all.skip(i as int).skip(1) =~= all.skip(i + 1));
        }
        let weight = match find_dependencies(simulation, name) {
            None => 1,
            Some(below) => {
                if is_in_names(name, expandable) {
                    let narrowed = names_without(expandable, name);
                    proof {
                        lemma_without_shorter(open, name@);
                    }
                    match dive_in(simulation, map, &below, &narrowed) {
                        Err(error) => {
                            return Err(error);
                        },
                        Ok(deepest) => match deepest.checked_mul(10) {
                            None => {
                                return Err(Error::Overflow(name.clone()));
                            },
                            Some(scaled) => scaled,
                        },
                    }
                } else {
                    1
                }
            },
        };
        map.record(name.clone(), weight);
        if weight > best {
            best = weight;
        }
        i += 1;
    }
    Ok(best)
}

/// The mathematical value of a score map that may have failed to build.
pub open spec fn map_outcome(res: Result<ScoreMap, Error>) -> Result<Weights, Failure> {
    match res {
        Ok(map) => Ok(map@),
        Err(error) => Err(error@),
    }
}

/// Builds the dependency-weighted score map of `simulation`. From every
/// target the dependencies are walked: a raw material weighs 1, a resource
/// with producers ten times the greatest weight below it, a resource that
/// its own branch has expanded already 1 again; for each name the greatest
/// weight seen is kept. Every target is then given the greatest weight of
/// all times `weight_multiplier`. Fails where a weight leaves `i64`.
pub fn build_score_map_hugo(simulation: &Simulation, weight_multiplier: Score) -> (res: Result<
    ScoreMap,
    Error,
>)
    ensures
        map_outcome(res) == weighted_map_spec(simulation@, weight_multiplier),
{
    let mut map = ScoreMap::new();
    let produced = all_produced_names(simulation);
    let ghost processes = simulation@.processes;
    let ghost targets = simulation@.optimize;
    let mut i: usize = 0;
    proof {
        assert(targets.skip(0) =~= targets);
    }
    while i < simulation.optimize.len()
        invariant
            i <= simulation.optimize@.len(),
            processes == simulation@.processes,
            targets == simulation@.optimize,
            produced.deep_view() == produced_names(processes),
            walk_targets_spec(processes, targets, Seq::empty()) == walk_targets_spec(
                processes,
                targets.skip(i as int),
                map@,
            ),
        decreases simulation.optimize@.len() - i,
    {
        let target = &simulation.optimize[i];
        proof {
            assert(targets.skip(i as int)[0] == target@);
            assert(targets.skip(i as int).skip(1) =~= targets.skip(i + 1));
        }
        match find_dependencies(simulation, target) {
            None => {
                proof {
                    assert(dependencies_spec(processes, target@) =~= Seq::<Seq<char>>::empty());
                }
            },
            Some(below) => {
                let open = names_without(&produced, target);
                match dive_in(simulation, &mut map, &below, &open) {
                    Err(error) => {
                        return Err(error);
                    },
                    Ok(_) => {},
                }
            },
        }
        i += 1;
    }
    let forced = match map.max_weight().checked_mul(weight_multiplier) {
        None => {
            return Err(Error::Overflow("weight".to_owned()));
        },
        Some(forced) => forced,
    };
    let ghost walked = map@;
    let mut j: usize = 0;
    while j < simulation.optimize.len()
        invariant
            j <= simulation.optimize@.len(),
            targets == simulation@.optimize,
            force_targets_spec(targets, walked, forced) == force_targets_spec(
                targets.skip(j as int),
                map@,
                forced,
            ),
        decreases simulation.optimize@.len() - j,
    {
        proof {
            assert(targets.skip(j as int)[0] == simulation.optimize@[j as int]@);
            assert(targets.skip(j as int).skip(1) =~= targets.skip(j + 1));
        }
        map.force(simulation.optimize[j].clone(), forced);
        j += 1;
    }
    Ok(map)
}

/// The flat score map: weight 1 on every target, whatever weight stood there.
pub open spec fn flat_map_spec(simulation: SimulationView) -> Weights {
    force_targets_spec(simulation.optimize, Seq::empty(), 1)
}

/// Builds the flat score map of `simulation`: every target weighs 1.
pub fn build_score_map_leo(simulation: &Simulation, _weight_multiplier: Score) -> (res: ScoreMap)
    ensures
        res@ == flat_map_spec(simulation@),
{
    let mut map = ScoreMap::new();
    let ghost targets = simulation@.optimize;
    let mut j: usize = 0;
    proof {
        assert(targets.skip(0) =~= targets);
    }
    while j < simulation.optimize.len()
        invariant
            j <= simulation.optimize@.len(),
            targets == simulation@.optimize,
            force_targets_spec(targets, Seq::empty(), 1) == force_targets_spec(
                targets.skip(j as int),
                map@,
                1,
            ),
        decreases simulation.optimize@.len() - j,
    {
        proof {
            assert(targets.skip(j as int)[0] == simulation.optimize@[j as int]@);
            assert(targets.skip(j as int).skip(1) =~= targets.skip(j + 1));
        }
        map.force(simulation.optimize[j].clone(), 1);
        j += 1;
    }
    map
}

/// The two ways of weighing resources.
#[derive(Debug, Clone, Copy, PartialEq, Eq)]
pub enum BroScore {
    /// Every target weighs 1.
    Leo,
    /// Weights follow the dependency graph.
    Hugo,
}

/// The score map of a catalog under either way of weighing.
pub open spec fn score_map_spec(simulation: SimulationView, multiplier: Score, bro_score: BroScore) -> Result<
    Weights,
    Failure,
> {
    match bro_score {
        BroScore::Leo => Ok(flat_map_spec(simulation)),
        BroScore::Hugo => weighted_map_spec(simulation, multiplier),
    }
}

/// Builds the score map of `simulation` in the way that `bro_score` names.
pub fn build_score_map(simulation: &Simulation, weight_multiplier: Score, bro_score: BroScore) -> (res:
    Result<ScoreMap, Error>)
    ensures
        map_outcome(res) == score_map_spec(simulation@, weight_multiplier, bro_score),
{
    match bro_score {
        BroScore::Leo => Ok(build_score_map_leo(simulation, weight_multiplier)),
        BroScore::Hugo => build_score_map_hugo(simulation, weight_multiplier),
    }
}

/// Every weight of `weights` is at least 1.
pub open spec fn all_positive(weights: Weights) -> bool {
    forall|k: int| 0 <= k < weights.len() ==> (#[trigger] weights[k]).1 >= 1
}

/// No weight of `weights` is above `bound`.
pub open spec fn all_within(weights: Weights, bound: Score) -> bool {
    forall|k: int| 0 <= k < weights.len() ==> (#[trigger] weights[k]).1 <= bound
}

/// The greatest weight is a bound on all weights.
pub proof fn lemma_max_weight_bounds(weights: Weights)
    ensures
        all_within(weights, max_weight_spec(weights)),
        all_positive(weights) ==> max_weight_spec(weights) >= 1,
    decreases weights.len(),
{
    if weights.len() > 1 {
        lemma_max_weight_bounds(weights.drop_last());
        assert forall|k: int| 0 <= k < weights.len() implies (#[trigger] weights[k]).1
            <= max_weight_spec(weights) by {
            if k < weights.len() - 1 {
                assert(weights.drop_last()[k] == weights[k]);
            }
        }
        if all_positive(weights) {
            assert(weights[weights.len() - 1].1 >= 1);
        }
    } else if weights.len() == 1 {
        if all_positive(weights) {
            assert(weights[0].1 >= 1);
        }
    }
}

/// Recording a weight of at least 1 keeps all weights at least 1.
pub proof fn lemma_record_positive(weights: Weights, name: Seq<char>, weight: Score)
    requires
        all_positive(weights),
        weight >= 1,
    ensures
        all_positive(record_spec(weights, name, weight)),
{
    lemma_first_index(weights, name);
}

/// A walk records only weights of at least 1, and the greatest weight that
/// it reports is at least 1 once it has weighed anything.
pub proof fn lemma_walk_positive(
    processes: Seq<ProcessView>,
    dependencies: Seq<Seq<char>>,
    expandable: Seq<Seq<char>>,
    weights: Weights,
    best: Score,
)
    requires
        all_positive(weights),
        best >= 0,
    ensures
        walk_spec(processes, dependencies, expandable, weights, best) matches Ok((walked, top))
            ==> all_positive(walked) && top >= best && (dependencies.len() > 0 ==> top >= 1),
    decreases expandable.len(), dependencies.len(),
{
    if dependencies.len() > 0 {
        let name = dependencies[0];
        let below = dependencies_spec(processes, name);
        if below.len() == 0 || !expandable.contains(name) {
            lemma_record_positive(weights, name, 1);
            lemma_walk_positive(
                processes,
                dependencies.skip(1),
                expandable,
                record_spec(weights, name, 1),
                if 1 > best {
                    1
                } else {
                    best
                },
            );
        } else {
            lemma_without_shorter(expandable, name);
            lemma_walk_positive(processes, below, without(expandable, name), weights, 0);
            match walk_spec(processes, below, without(expandable, name), weights, 0) {
                Ok((deeper, weight)) => {
                    match tenfold(weight) {
                        Some(scaled) => {
                            lemma_record_positive(deeper, name, scaled);
                            lemma_walk_positive(
                                processes,
                                dependencies.skip(1),
                                expandable,
                                record_spec(deeper, name, scaled),
                                if scaled > best {
                                    scaled
                                } else {
                                    best
                                },
                            );
                        },
                        None => {},
                    }
                },
                Err(_) => {},
            }
        }
    }
}

/// Walking from the targets records only weights of at least 1.
pub proof fn lemma_targets_positive(
    processes: Seq<ProcessView>,
    targets: Seq<Seq<char>>,
    weights: Weights,
)
    requires
        all_positive(weights),
    ensures
        walk_targets_spec(processes, targets, weights) matches Ok(walked) ==> all_positive(walked),
    decreases targets.len(),
{
    if targets.len() > 0 {
        let below = dependencies_spec(processes, targets[0]);
        let open = without(produced_names(processes), targets[0]);
        lemma_walk_positive(processes, below, open, weights, 0);
        match walk_spec(processes, below, open, weights, 0) {
            Ok((walked, _)) => {
                lemma_targets_positive(processes, targets.skip(1), walked);
            },
            Err(_) => {},
        }
    }
}

/// Forcing a weight on `target` gives `target` that weight and leaves the
/// weight of every other name as it was.
pub proof fn lemma_force_weights(weights: Weights, target: Seq<char>, weight: Score, name: Seq<char>)
    ensures
        weight_of(force_spec(weights, target, weight), target) == Some(weight),
        name != target ==> weight_of(force_spec(weights, target, weight), name) == weight_of(
            weights,
            name,
        ),
{
    let forced = force_spec(weights, target, weight);
    lemma_first_index(weights, target);
    lemma_first_index(weights, name);
    match first_index(weights, target) {
        Some(i) => {
            lemma_first_index_is(forced, target, i);
            if name != target {
                match first_index(weights, name) {
                    Some(j) => {
                        lemma_first_index_is(forced, name, j);
                    },
                    None => {
                        lemma_first_index_none(forced, name);
                    },
                }
            }
        },
        None => {
            lemma_first_index_is(forced, target, weights.len() as int);
            if name != target {
                match first_index(weights, name) {
                    Some(j) => {
                        lemma_first_index_is(forced, name, j);
                    },
                    None => {
                        lemma_first_index_none(forced, name);
                    },
                }
            }
        },
    }
}

/// No name stands twice in `weights`.
pub open spec fn names_distinct(weights: Weights) -> bool {
    forall|i: int, j: int|
        0 <= i < j < weights.len() ==> (#[trigger] weights[i]).0 != (#[trigger] weights[j]).0
}

/// Recording and forcing a weight keep every name single.
pub proof fn lemma_record_distinct(weights: Weights, name: Seq<char>, weight: Score)
    requires
        names_distinct(weights),
    ensures
        names_distinct(record_spec(weights, name, weight)),
        names_distinct(force_spec(weights, name, weight)),
{
    lemma_first_index(weights, name);
    let recorded = record_spec(weights, name, weight);
    let forced = force_spec(weights, name, weight);
    assert forall|i: int, j: int| 0 <= i < j < recorded.len() implies (#[trigger] recorded[i]).0
        != (#[trigger] recorded[j]).0 by {
        if i < weights.len() && j < weights.len() {
            assert(weights[i].0 != weights[j].0);
        }
    }
    assert forall|i: int, j: int| 0 <= i < j < forced.len() implies (#[trigger] forced[i]).0
        != (#[trigger] forced[j]).0 by {
        if i < weights.len() && j < weights.len() {
            assert(weights[i].0 != weights[j].0);
        }
    }
}

/// A walk keeps every name single.
pub proof fn lemma_walk_distinct(
    processes: Seq<ProcessView>,
    dependencies: Seq<Seq<char>>,
    expandable: Seq<Seq<char>>,
    weights: Weights,
    best: Score,
)
    requires
        names_distinct(weights),
    ensures
        walk_spec(processes, dependencies, expandable, weights, best) matches Ok((walked, _))
            ==> names_distinct(walked),
    decreases expandable.len(), dependencies.len(),
{
    if dependencies.len() > 0 {
        let name = dependencies[0];
        let below = dependencies_spec(processes, name);
        if below.len() == 0 || !expandable.contains(name) {
            lemma_record_distinct(weights, name, 1);
            lemma_walk_distinct(
                processes,
                dependencies.skip(1),
                expandable,
                record_spec(weights, name, 1),
                if 1 > best {
                    1
                } else {
                    best
                },
            );
        } else {
            lemma_without_shorter(expandable, name);
            lemma_walk_distinct(processes, below, without(expandable, name), weights, 0);
            match walk_spec(processes, below, without(expandable, name), weights, 0) {
                Ok((deeper, weight)) => {
                    match tenfold(weight) {
                        Some(scaled) => {
                            lemma_record_distinct(deeper, name, scaled);
                            lemma_walk_distinct(
                                processes,
                                dependencies.skip(1),
                                expandable,
                                record_spec(deeper, name, scaled),
                                if scaled > best {
                                    scaled
                                } else {
                                    best
                                },
                            );
                        },
                        None => {},
                    }
                },
                Err(_) => {},
            }
        }
    }
}

/// Walking from the targets keeps every name single.
pub proof fn lemma_targets_distinct(
    processes: Seq<ProcessView>,
    targets: Seq<Seq<char>>,
    weights: Weights,
)
    requires
        names_distinct(weights),
    ensures
        walk_targets_spec(processes, targets, weights) matches Ok(walked) ==> names_distinct(
            walked,
        ),
    decreases targets.len(),
{
    if targets.len() > 0 {
        let below = dependencies_spec(processes, targets[0]);
        let open = without(produced_names(processes), targets[0]);
        lemma_walk_distinct(processes, below, open, weights, 0);
        match walk_spec(processes, below, open, weights, 0) {
            Ok((walked, _)) => {
                lemma_targets_distinct(processes, targets.skip(1), walked);
            },
            Err(_) => {},
        }
    }
}

/// Forcing a weight on the targets keeps every name single.
pub proof fn lemma_force_targets_distinct(targets: Seq<Seq<char>>, weights: Weights, weight: Score)
    requires
        names_distinct(weights),
    ensures
        names_distinct(force_targets_spec(targets, weights, weight)),
    decreases targets.len(),
{
    if targets.len() > 0 {
        lemma_record_distinct(weights, targets[0], weight);
        lemma_force_targets_distinct(targets.skip(1), force_spec(weights, targets[0], weight), weight);
    }
}

/// A score map holds every resource once, whichever way it is built: a
/// score counts no resource twice.
pub proof fn lemma_score_map_distinct(
    simulation: SimulationView,
    multiplier: Score,
    bro_score: BroScore,
)
    ensures
        score_map_spec(simulation, multiplier, bro_score) matches Ok(weights) ==> names_distinct(
            weights,
        ),
{
    lemma_force_targets_distinct(simulation.optimize, Seq::empty(), 1);
    lemma_targets_distinct(simulation.processes, simulation.optimize, Seq::empty());
    match walk_targets_spec(simulation.processes, simulation.optimize, Seq::empty()) {
        Ok(walked) => {
            let top = max_weight_spec(walked);
            lemma_force_targets_distinct(
                simulation.optimize,
                walked,
                (top * multiplier) as Score,
            );
        },
        Err(_) => {},
    }
}

/// With a single target and a multiplier above 1, the target weighs
/// strictly more than every other resource of the score map, however deep
/// the walk went.
pub proof fn lemma_target_dominates(
    simulation: SimulationView,
    multiplier: Score,
    name: Seq<char>,
)
    requires
        simulation.optimize.len() == 1,
        multiplier > 1,
        weighted_map_spec(simulation, multiplier) is Ok,
        name != simulation.optimize[0],
        weight_of(weighted_map_spec(simulation, multiplier)->Ok_0, name) is Some,
    ensures
        weight_of(weighted_map_spec(simulation, multiplier)->Ok_0, name)->Some_0 < weight_of(
            weighted_map_spec(simulation, multiplier)->Ok_0,
            simulation.optimize[0],
        )->Some_0,
{
    let target = simulation.optimize[0];
    let walked = walk_targets_spec(simulation.processes, simulation.optimize, Seq::empty())->Ok_0;
    lemma_targets_positive(simulation.processes, simulation.optimize, Seq::empty());
    lemma_max_weight_bounds(walked);
    let top = max_weight_spec(walked);
    let forced = (top * multiplier) as Score;
    assert(top * multiplier > top) by (nonlinear_arith)
        requires
            top >= 1,
            multiplier > 1,
    ;
    assert(simulation.optimize.skip(1) =~= Seq::<Seq<char>>::empty());
    let result = force_spec(walked, target, forced);
    assert(force_targets_spec(simulation.optimize.skip(1), result, forced) == result);
    assert(weighted_map_spec(simulation, multiplier)->Ok_0 == result);
    lemma_force_weights(walked, target, forced, name);
    lemma_first_index(walked, name);
}

/// What a scorer is made of: the catalog, the weights of its resources, and
/// the cost of one unit of time in millionths of a point.
pub struct ScorerView {
    pub simulation: SimulationView,
    pub weights: Weights,
    pub time_weight: nat,
}

/// The weights of the entries of `weights` whose resource has an entry in
/// `stock`, added up.
pub open spec fn stock_score_spec(weights: Weights, stock: Stock) -> int
    decreases weights.len(),
{
    if weights.len() == 0 {
        0
    } else {
        let last: int = if stock.dom().contains(weights.last().0) {
            weights.last().1 as int
        } else {
            0
        };
        stock_score_spec(weights.drop_last(), stock) + last
    }
}

/// The cost of `duration` units of time at `time_weight` millionths of a
/// point each, rounded to the nearest point, halves upwards.
pub open spec fn time_penalty_spec(duration: nat, time_weight: nat) -> nat {
    (duration * time_weight + 500_000) / 1_000_000
}

/// The fitness of a final stock reached after `duration`: the weights of
/// what it holds less the cost of the time, where that is a score.
pub open spec fn fitness_spec(view: ScorerView, stock: Stock, duration: nat) -> Result<
    Score,
    Failure,
> {
    let total = stock_score_spec(view.weights, stock) - time_penalty_spec(duration, view.time_weight);
    if total > i64::MAX || total < i64::MIN {
        Err(Failure::Overflow("score"@))
    } else {
        Ok(total as Score)
    }
}

/// The score of `path`: the fitness of the stock that it ends with when it
/// is run step after step, or the failure of that run.
pub open spec fn score_spec(view: ScorerView, path: Seq<Seq<char>>) -> Result<Score, Failure> {
    match simulate_path_spec(view.simulation, path) {
        Err(failure) => Err(failure),
        Ok((stock, duration)) => fitness_spec(view, stock, duration),
    }
}

/// The mathematical value of a scoring result.
pub open spec fn score_outcome(res: Result<Score, Error>) -> Result<Score, Failure> {
    match res {
        Ok(score) => Ok(score),
        Err(error) => Err(error@),
    }
}

/// Scoring is a function of the scorer and the path alone: two scorings of
/// one path by one scorer give the same result.
pub proof fn lemma_score_repeatable(
    view: ScorerView,
    path: Seq<Seq<char>>,
    first: Result<Score, Error>,
    second: Result<Score, Error>,
)
    requires
        score_outcome(first) == score_spec(view, path),
        score_outcome(second) == score_spec(view, path),
    ensures
        score_outcome(first) == score_outcome(second),
{
}

/// Scores paths against one catalog.
pub struct Scorer {
    simulation: Simulation,
    score_map: ScoreMap,
    time_weight: u64,
}

impl View for Scorer {
    type V = ScorerView;

    closed spec fn view(&self) -> ScorerView {
        ScorerView {
            simulation: self.simulation@,
            weights: self.score_map@,
            time_weight: self.time_weight as nat,
        }
    }
}

/// The factor by which the targets outweigh everything else.
pub const TARGET_MULTIPLIER: Score = 100;

impl Scorer {
    /// A scorer for `simulation`, with the score map that `bro_score` names.
    /// `time_weight` is the cost of one unit of time in millionths of a
    /// point; it counts only where the catalog optimises time. Fails where
    /// the score map cannot be built.
    pub fn new(simulation: Simulation, time_weight: u64, bro_score: BroScore) -> (res: Result<
        Self,
        Error,
    >)
        ensures
            match res {
                Ok(scorer) => score_map_spec(simulation@, TARGET_MULTIPLIER, bro_score) == Ok::<
                    Weights,
                    Failure,
                >(scorer@.weights) && scorer@.simulation == simulation@ && scorer@.time_weight == (
                if simulation.optimize_time {
                    time_weight as nat
                } else {
                    0
                }),
                Err(error) => score_map_spec(simulation@, TARGET_MULTIPLIER, bro_score) == Err::<
                    Weights,
                    Failure,
                >(error@),
            },
    {
        match build_score_map(&simulation, TARGET_MULTIPLIER, bro_score) {
            Err(error) => Err(error),
            Ok(score_map) => {
                let time_weight = if simulation.optimize_time {
                    time_weight
                } else {
                    0
                };
                Ok(Scorer { simulation, score_map, time_weight })
            },
        }
    }

    /// The catalog that this scorer scores against.
    pub fn simulation(&self) -> (res: &Simulation)
        ensures
            res@ == self@.simulation,
    {
        &self.simulation
    }

    /// The weights that this scorer gives to resources.
    pub fn score_map(&self) -> (res: &ScoreMap)
        ensures
            res@ == self@.weights,
    {
        &self.score_map
    }

    /// The fitness of `stock` reached after `duration`.
    pub fn fitness(&self, stock: &Inventory, duration: usize) -> (res: Result<Score, Error>)
        ensures
            score_outcome(res) == fitness_spec(self@, stock@, duration as nat),
    {
        let ghost weights = self.score_map@;
        let mut sum: i128 = 0;
        let mut i: usize = 0;
        while i < self.score_map.len()
            invariant
                i <= weights.len(),
                weights == self.score_map@,
                sum == stock_score_spec(weights.take(i as int), stock@),
                -(i * 0x8000_0000_0000_0000) <= sum <= i * 0x7fff_ffff_ffff_ffff,
            decreases weights.len() - i,
        {
            proof {
                assert(weights.take(i + 1).drop_last() =~= weights.take(i as int));
                assert(weights.take(i + 1).last() == weights[i as int]);
            }
            if stock.get(self.score_map.name_at(i)).is_some() {
                sum = sum + self.score_map.weight_at(i) as i128;
            }
            i += 1;
        }
        proof {
            assert(weights.take(weights.len() as int) =~= weights);
        }
        let ghost cost = time_penalty_spec(duration as nat, self.time_weight as nat);
        assert(duration * self.time_weight <= 0xffff_ffff_ffff_ffff * 0xffff_ffff_ffff_ffff)
            by (nonlinear_arith)
            requires
                duration <= 0xffff_ffff_ffff_ffff,
                self.time_weight <= 0xffff_ffff_ffff_ffff,
        ;
        let penalty: u128 = (duration as u128 * self.time_weight as u128 + 500_000) / 1_000_000;
        assert(penalty == cost);
        let low: i128 = sum - 0x7fff_ffff_ffff_ffff;
        let high: i128 = sum + 0x8000_0000_0000_0000;
        let above = low <= 0 || penalty >= low as u128;
        let below = high >= 0 && penalty <= high as u128;
        if above && below {
            Ok((sum - penalty as i128) as i64)
        } else {
            Err(Error::Overflow("score".to_owned()))
        }
    }

    /// The score of `path`: the weights of the resources that the stock
    /// holds after `path` ran step after step, less the cost of the time
    /// that the steps take. Fails where the run fails, and where the score
    /// leaves `i64`.
    pub fn score(&self, path: &Path) -> (res: Result<Score, Error>)
        ensures
            score_outcome(res) == score_spec(self@, path.deep_view()),
    {
        match simulate(&self.simulation, path, false) {
            Err(error) => Err(error),
            Ok((stock, duration)) => self.fitness(&stock, duration),
        }
    }
}

/// Scores `path` on `simulation` under the given weights and cost of time.
pub fn leo_score(simulation: &Simulation, score_map: &ScoreMap, time_weight: u64, path: &Path) -> (res:
    Result<Score, Error>)
    ensures
        score_outcome(res) == score_spec(
            ScorerView {
                simulation: simulation@,
                weights: score_map@,
                time_weight: time_weight as nat,
            },
            path.deep_view(),
        ),
{
    let scorer = Scorer {
        simulation: simulation.clone(),
        score_map: score_map.clone(),
        time_weight,
    };
    scorer.score(path)
}

} // verus!
