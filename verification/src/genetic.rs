//! The genetic search: generations of candidate paths that are drawn,
//! scored, selected and bred from.

use rand::rngs::StdRng;
use rand::{Rng, SeedableRng};
use vstd::prelude::*;
use crate::ast::{clone_names, lookup, ProcessView, Simulation, SimulationView};
use crate::check::{apply_spec, manage_resources, run_spec};
use crate::dna::{build_dnas, choices_spec, lemma_choices_are_available, DnaView, DNA};
use crate::error::Error;
use crate::inventory::{Inventory, Stock};
use crate::score::{
    score_map_spec,
    score_spec,
    BroScore,
    Score,
    Scorer,
    ScorerView,
    Weights,
    TARGET_MULTIPLIER,
};
use crate::solver::{batchify, batchify_spec, production_view, BatchView, Path, Production, Step};
use crate::utils::{
    fibonacci_n,
    find_slot,
    is_fibonacci_weights,
    lemma_stable_rank,
    reversed,
    stable_rank,
};

verus! {

/// The random number generator of the search; a value of it is opaque.
#[verifier::external_type_specification]
#[verifier::external_body]
pub struct ExStdRng(StdRng);

/// A generator that starts from `seed`.
///
/// Calls `StdRng::seed_from_u64` of rand. Nothing is claimed of the
/// generator that comes back.
#[verifier::external_body]
fn seeded_rng(seed: u64) -> (res: StdRng) {
    StdRng::seed_from_u64(seed)
}

/// A number below `bound`, drawn from `rng`.
///
/// Calls `Rng::gen_range(0, bound)` of rand, which samples the half-open
/// range from 0 to `bound` and panics where that range is empty; so
/// `bound` must be positive, and all that is claimed is that the number
/// lies below it.
#[verifier::external_body]
fn random_below(rng: &mut StdRng, bound: usize) -> (res: usize)
    requires
        bound > 0,
    ensures
        res < bound,
{
    rng.gen_range(0, bound)
}

/// How the search is run. Chances and weights are in millionths.
#[derive(Debug, Clone, Copy, PartialEq, Eq)]
pub struct Config {
    pub mutation_chance: u64,
    pub max_depth: usize,
    pub generation_size: usize,
    pub iterations: usize,
    pub time_weight: u64,
}

/// The part of `scores` before `n`, added up.
pub open spec fn sum_of(scores: Seq<Score>, n: int) -> int
    decreases n,
{
    if n <= 0 {
        0
    } else {
        sum_of(scores, n - 1) + scores[n - 1]
    }
}

/// The mean of `scores`, rounded towards zero; 0 for no score.
pub open spec fn average_spec(scores: Seq<Score>) -> int {
    let sum = sum_of(scores, scores.len() as int);
    if scores.len() == 0 {
        0
    } else if sum >= 0 {
        sum / (scores.len() as int)
    } else {
        -((-sum) / (scores.len() as int))
    }
}

/// The first of `scores`; 0 for no score.
pub open spec fn best_spec(scores: Seq<Score>) -> int {
    if scores.len() == 0 {
        0
    } else {
        scores[0] as int
    }
}

/// The mean and the best score of every generation, in order.
#[derive(Debug)]
pub struct Stats {
    pub average_scores: Vec<Score>,
    pub best_scores: Vec<Score>,
}

impl Clone for Stats {
    fn clone(&self) -> (res: Self)
        ensures
            res.average_scores@ == self.average_scores@,
            res.best_scores@ == self.best_scores@,
    {
        Stats { average_scores: self.average_scores.clone(), best_scores: self.best_scores.clone() }
    }
}

impl Stats {
    /// Statistics without any generation.
    pub fn new() -> (res: Self)
        ensures
            res.average_scores@.len() == 0,
            res.best_scores@.len() == 0,
    {
        Stats { average_scores: Vec::new(), best_scores: Vec::new() }
    }

    /// Appends the mean and the best of one generation. `generation_scores`
    /// are the scores of the generation, the best first.
    pub fn update_scores(&mut self, generation_scores: Vec<Score>)
        ensures
            final(self).average_scores@ == old(self).average_scores@.push(
                average_spec(generation_scores@) as Score,
            ),
            final(self).best_scores@ == old(self).best_scores@.push(
                best_spec(generation_scores@) as Score,
            ),
            i64::MIN <= average_spec(generation_scores@) <= i64::MAX,
    {
        let ghost scores = generation_scores@;
        let mut sum: i128 = 0;
        let mut i: usize = 0;
        while i < generation_scores.len()
            invariant
                i <= generation_scores@.len(),
                scores == generation_scores@,
                sum == sum_of(scores, i as int),
                -(i * 0x8000_0000_0000_0000) <= sum <= i * 0x7fff_ffff_ffff_ffff,
            decreases generation_scores@.len() - i,
        {
            sum = sum + generation_scores[i] as i128;
            i += 1;
        }
        let len = generation_scores.len();
        let average: i128 = if len == 0 {
            0
        } else if sum >= 0 {
            let quotient = sum / (len as i128);
            assert(quotient <= 0x7fff_ffff_ffff_ffff) by (nonlinear_arith)
                requires
                    quotient == (sum as int) / (len as int),
                    0 <= sum <= len * 0x7fff_ffff_ffff_ffff,
                    len > 0,
            ;
            quotient
        } else {
            let quotient = (-sum) / (len as i128);
            assert(quotient <= 0x8000_0000_0000_0000) by (nonlinear_arith)
                requires
                    quotient == (-(sum as int)) / (len as int),
                    0 <= -sum <= len * 0x8000_0000_0000_0000,
                    len > 0,
            ;
            -quotient
        };
        let best: Score = if len == 0 {
            0
        } else {
            generation_scores[0]
        };
        self.average_scores.push(average as i64);
        self.best_scores.push(best);
    }
}

/// No process before the one at `i` carries its name.
pub open spec fn is_first_named(processes: Seq<ProcessView>, i: int) -> bool {
    forall|k: int| 0 <= k < i ==> (#[trigger] processes[k]).name != processes[i].name
}

/// The steps that `stock` allows among the first `n` processes of the
/// catalog, each with the stock that it leaves: in catalog order, every
/// process that is the first of its name and can be applied.
pub open spec fn available_upto(processes: Seq<ProcessView>, n: int, stock: Stock) -> Seq<
    (Seq<char>, Stock),
>
    decreases n,
{
    if n <= 0 {
        Seq::empty()
    } else {
        let before = available_upto(processes, n - 1, stock);
        let process = processes[n - 1];
        if is_first_named(processes, n - 1) && apply_spec(process, stock) is Ok {
            before.push((process.name, apply_spec(process, stock)->Ok_0))
        } else {
            before
        }
    }
}

/// The steps that `stock` allows, each with the stock that it leaves.
pub open spec fn available_spec(processes: Seq<ProcessView>, stock: Stock) -> Seq<(Seq<char>, Stock)> {
    available_upto(processes, processes.len() as int, stock)
}

/// Taking the step `name` on `stock` leaves `next`.
pub open spec fn step_from(processes: Seq<ProcessView>, stock: Stock, name: Seq<char>, next: Stock) -> bool {
    match lookup(processes, name) {
        Some(process) => apply_spec(process, stock) == Ok::<Stock, crate::error::Failure>(next),
        None => false,
    }
}

/// The process that is the first of its name is the one that the catalog
/// gives for that name.
pub proof fn lemma_lookup_first(processes: Seq<ProcessView>, i: int)
    requires
        0 <= i < processes.len(),
        is_first_named(processes, i),
    ensures
        lookup(processes, processes[i].name) == Some(processes[i]),
    decreases i,
{
    if i > 0 {
        let tail = processes.skip(1);
        assert(processes[0].name != processes[i].name);
        assert(tail[i - 1] == processes[i]);
        assert forall|k: int| 0 <= k < i - 1 implies (#[trigger] tail[k]).name != tail[i - 1].name by {
            assert(tail[k] == processes[k + 1]);
        }
        lemma_lookup_first(tail, i - 1);
    }
}

/// What the catalog gives for a name is the first process of that name.
pub proof fn lemma_lookup_position(processes: Seq<ProcessView>, name: Seq<char>)
    requires
        lookup(processes, name) is Some,
    ensures
        exists|i: int|
            0 <= i < processes.len() && is_first_named(processes, i) && #[trigger] processes[i]
                == lookup(processes, name)->Some_0 && processes[i].name == name,
    decreases processes.len(),
{
    if processes[0].name == name {
        assert(is_first_named(processes, 0));
        assert(processes[0] == lookup(processes, name)->Some_0);
    } else {
        let tail = processes.skip(1);
        lemma_lookup_position(tail, name);
        let i = choose|i: int|
            0 <= i < tail.len() && is_first_named(tail, i) && #[trigger] tail[i] == lookup(
                tail,
                name,
            )->Some_0 && tail[i].name == name;
        assert(processes[i + 1] == tail[i]);
        assert forall|k: int| 0 <= k < i + 1 implies (#[trigger] processes[k]).name != processes[i
            + 1].name by {
            if k > 0 {
                assert(tail[k - 1] == processes[k]);
            }
        }
        assert(is_first_named(processes, i + 1));
    }
}

/// Every step that is listed as available can be taken, and leaves the
/// stock that is listed with it.
pub proof fn lemma_available_sound(processes: Seq<ProcessView>, n: int, stock: Stock)
    requires
        0 <= n <= processes.len(),
    ensures
        forall|j: int|
            0 <= j < available_upto(processes, n, stock).len() ==> step_from(
                processes,
                stock,
                (#[trigger] available_upto(processes, n, stock)[j]).0,
                available_upto(processes, n, stock)[j].1,
            ),
    decreases n,
{
    if n > 0 {
        lemma_available_sound(processes, n - 1, stock);
        let before = available_upto(processes, n - 1, stock);
        let now = available_upto(processes, n, stock);
        if is_first_named(processes, n - 1) {
            lemma_lookup_first(processes, n - 1);
        }
        assert forall|j: int| 0 <= j < now.len() implies step_from(
            processes,
            stock,
            (#[trigger] now[j]).0,
            now[j].1,
        ) by {
            if j < before.len() {
                assert(now[j] == before[j]);
            }
        }
    }
}

/// Where no step is listed as available, no process of the catalog can be
/// applied under its name.
pub proof fn lemma_available_complete(processes: Seq<ProcessView>, stock: Stock, name: Seq<char>)
    requires
        available_spec(processes, stock).len() == 0,
        lookup(processes, name) is Some,
    ensures
        apply_spec(lookup(processes, name)->Some_0, stock) is Err,
{
    lemma_lookup_position(processes, name);
    let i = choose|i: int|
        0 <= i < processes.len() && is_first_named(processes, i) && #[trigger] processes[i]
            == lookup(processes, name)->Some_0 && processes[i].name == name;
    lemma_available_grows(processes, i + 1, processes.len() as int, stock);
}

/// The list of available steps only grows with the part of the catalog
/// that is looked at.
pub proof fn lemma_available_grows(processes: Seq<ProcessView>, n: int, m: int, stock: Stock)
    requires
        0 <= n <= m,
    ensures
        available_upto(processes, n, stock).len() <= available_upto(processes, m, stock).len(),
    decreases m - n,
{
    if n < m {
        lemma_available_grows(processes, n, m - 1, stock);
    }
}

/// Taking one more step after a path: the run of the longer path is the run
/// of the path, then that step.
pub proof fn lemma_run_push(
    processes: Seq<ProcessView>,
    path: Seq<Seq<char>>,
    stock: Stock,
    name: Seq<char>,
)
    ensures
        run_spec(processes, path.push(name), stock) == match run_spec(processes, path, stock) {
            Ok(reached) => run_spec(processes, seq![name], reached),
            Err(failure) => Err(failure),
        },
    decreases path.len(),
{
    if path.len() == 0 {
        assert(path.push(name) =~= seq![name]);
    } else {
        let longer = path.push(name);
        assert(longer[0] == path[0]);
        assert(longer.skip(1) =~= path.skip(1).push(name));
        match lookup(processes, path[0]) {
            Some(process) => {
                match apply_spec(process, stock) {
                    Ok(next) => {
                        lemma_run_push(processes, path.skip(1), next, name);
                    },
                    Err(_) => {},
                }
            },
            None => {},
        }
    }
}

/// A step that can be taken on the stock that a path reaches extends the
/// path to one that reaches the stock that the step leaves.
pub proof fn lemma_run_extend(
    processes: Seq<ProcessView>,
    path: Seq<Seq<char>>,
    start: Stock,
    reached: Stock,
    name: Seq<char>,
    next: Stock,
)
    requires
        run_spec(processes, path, start) == Ok::<Stock, crate::error::Failure>(reached),
        step_from(processes, reached, name, next),
    ensures
        run_spec(processes, path.push(name), start) == Ok::<Stock, crate::error::Failure>(next),
{
    lemma_run_push(processes, path, start, name);
    let single = seq![name];
    assert(single[0] == name);
    assert(single.skip(1) =~= Seq::<Seq<char>>::empty());
    assert(run_spec(processes, single.skip(1), next) == Ok::<Stock, crate::error::Failure>(next));
}

/// Whether the process at `i` is the first of its name in `simulation`.
fn first_of_its_name(simulation: &Simulation, i: usize) -> (res: bool)
    requires
        i < simulation.processes@.len(),
    ensures
        res == is_first_named(simulation@.processes, i as int),
{
    let mut k: usize = 0;
    while k < i
        invariant
            k <= i,
            i < simulation.processes@.len(),
            forall|m: int|
                0 <= m < k ==> (#[trigger] simulation@.processes[m]).name
                    != simulation@.processes[i as int].name,
        decreases i - k,
    {
        if simulation.processes[k].name == simulation.processes[i].name {
            proof {
                assert(simulation@.processes[k as int].name == simulation@.processes[i as int].name);
            }
            return false;
        }
        k += 1;
    }
    true
}

/// The steps that `inventory` allows on the catalog `simulation`, each with
/// the stock that it leaves.
pub fn get_available_steps(simulation: &Simulation, inventory: &Inventory) -> (res: Vec<
    (Step, Inventory),
>)
    ensures
        res.deep_view() == available_spec(simulation@.processes, inventory@),
{
    let ghost processes = simulation@.processes;
    let mut res: Vec<(Step, Inventory)> = Vec::new();
    let mut i: usize = 0;
    proof {
        assert(res.deep_view() =~= available_upto(processes, 0, inventory@));
    }
    while i < simulation.processes.len()
        invariant
            i <= simulation.processes@.len(),
            processes == simulation@.processes,
            res.deep_view() == available_upto(processes, i as int, inventory@),
        decreases simulation.processes@.len() - i,
    {
        let ghost before = res.deep_view();
        if first_of_its_name(simulation, i) {
            match manage_resources(inventory.clone(), &simulation.processes[i]) {
                Ok(next) => {
                    let ghost reached = next@;
                    res.push((simulation.processes[i].name.clone(), next));
                    proof {
                        assert(res.deep_view() =~= before.push((processes[i as int].name, reached)));
                    }
                },
                Err(_) => {},
            }
        }
        i += 1;
    }
    res
}

/// The names of `steps`, in order.
pub open spec fn step_names(steps: Seq<(Seq<char>, Stock)>) -> Seq<Seq<char>> {
    Seq::new(steps.len(), |i: int| steps[i].0)
}

/// `path` has at most `max_depth` steps and can be run from `start`, step
/// after step; and where it has fewer steps, the stock that it reaches
/// allows no further step.
pub open spec fn is_drawn(
    processes: Seq<ProcessView>,
    start: Stock,
    max_depth: usize,
    path: Seq<Seq<char>>,
) -> bool {
    &&& path.len() <= max_depth
    &&& run_spec(processes, path, start) is Ok
    &&& path.len() < max_depth ==> available_spec(
        processes,
        run_spec(processes, path, start)->Ok_0,
    ).len() == 0
}

/// `path` is a candidate of a search on `simulation`: a path drawn from the
/// starting stock.
pub open spec fn is_candidate(simulation: SimulationView, max_depth: usize, path: Seq<Seq<char>>) -> bool {
    is_drawn(simulation.processes, simulation.inventory, max_depth, path)
}

/// `population` is a generation of a search on `simulation`: as many
/// candidates as a generation has.
pub open spec fn is_generation(
    simulation: SimulationView,
    max_depth: usize,
    generation_size: usize,
    population: Seq<Seq<Seq<char>>>,
) -> bool {
    &&& population.len() == generation_size
    &&& forall|k: int|
        0 <= k < population.len() ==> is_candidate(simulation, max_depth, #[trigger] population[k])
}

/// Draws one path of at most `len` steps: from `base_inventory` on, one of
/// the steps that the stock allows is drawn at random and taken, until
/// `len` steps are taken or the stock allows none. Whatever is drawn, the
/// path can be run from `base_inventory`, step after step, and where it is
/// shorter than `len` the stock that it reaches allows no further step.
pub fn generate_one(simulation: &Simulation, rng: &mut StdRng, len: usize, base_inventory: &Inventory) -> (res:
    Path)
    ensures
        is_drawn(simulation@.processes, base_inventory@, len, res.deep_view()),
{
    let ghost processes = simulation@.processes;
    let mut production: Path = Vec::new();
    let mut simulation_inventory = base_inventory.clone();
    let mut i: usize = 0;
    proof {
        assert(production.deep_view() =~= Seq::<Seq<char>>::empty());
    }
    while i < len
        invariant
            i <= len,
            production@.len() == i,
            processes == simulation@.processes,
            run_spec(processes, production.deep_view(), base_inventory@) == Ok::<
                Stock,
                crate::error::Failure,
            >(simulation_inventory@),
        decreases len - i,
    {
        let mut available_steps = get_available_steps(simulation, &simulation_inventory);
        if available_steps.len() == 0 {
            return production;
        }
        let chosen = random_below(rng, available_steps.len());
        let ghost before = production.deep_view();
        let ghost reached = simulation_inventory@;
        proof {
            lemma_available_sound(processes, processes.len() as int, reached);
            assert(available_steps.deep_view()[chosen as int] == (
                available_steps@[chosen as int].0@,
                available_steps@[chosen as int].1@,
            ));
        }
        let (step_name, next) = available_steps.swap_remove(chosen);
        proof {
            lemma_run_extend(processes, before, base_inventory@, reached, step_name@, next@);
        }
        simulation_inventory = next;
        production.push(step_name);
        proof {
            assert(production.deep_view() =~= before.push(step_name@));
        }
        i += 1;
    }
    production
}

/// Draws `population_size` paths of at most `max_depth` steps each, every
/// one from the starting stock of `simulation`.
pub fn generate(simulation: &Simulation, rng: &mut StdRng, population_size: usize, max_depth: usize) -> (res:
    Vec<Path>)
    ensures
        is_generation(simulation@, max_depth, population_size, res.deep_view()),
{
    let mut res: Vec<Path> = Vec::new();
    let mut i: usize = 0;
    while i < population_size
        invariant
            i <= population_size,
            res@.len() == i,
            forall|k: int|
                0 <= k < res@.len() ==> is_candidate(
                    simulation@,
                    max_depth,
                    (#[trigger] res@[k]).deep_view(),
                ),
        decreases population_size - i,
    {
        let path = generate_one(simulation, rng, max_depth, &simulation.inventory);
        res.push(path);
        i += 1;
    }
    proof {
        assert forall|k: int| 0 <= k < res.deep_view().len() implies is_candidate(
            simulation@,
            max_depth,
            #[trigger] res.deep_view()[k],
        ) by {
            assert(res.deep_view()[k] == res@[k].deep_view());
        }
    }
    res
}

/// The views of `dnas`, in order.
pub open spec fn dna_views(dnas: Seq<DNA>) -> Seq<DnaView> {
    Seq::new(dnas.len(), |i: int| dnas[i]@)
}

/// The votes of all parents for the step at `index`: for every parent in
/// turn, its preferred step among `available_steps`, once per vote.
pub fn build_step_choices(available_steps: &Vec<&Step>, dnas: &Vec<DNA>, index: usize) -> (res: Vec<
    Step,
>)
    requires
        available_steps@.len() > 0,
    ensures
        res.deep_view() == choices_spec(dna_views(dnas@), index, available_steps.deep_view()),
{
    let ghost views = dna_views(dnas@);
    let ghost available = available_steps.deep_view();
    let mut res: Vec<Step> = Vec::new();
    let mut i: usize = 0;
    proof {
        assert(res.deep_view() =~= choices_spec(views.take(0), index, available));
    }
    while i < dnas.len()
        invariant
            i <= dnas@.len(),
            views == dna_views(dnas@),
            available == available_steps.deep_view(),
            available_steps@.len() > 0,
            res.deep_view() == choices_spec(views.take(i as int), index, available),
        decreases dnas@.len() - i,
    {
        let ghost before = res.deep_view();
        proof {
            assert(views.take(i + 1).drop_last() =~= views.take(i as int));
            assert(views.take(i + 1).last() == dnas@[i as int]@);
        }
        let mut steps = dnas[i].pick_steps(index, available_steps);
        let ghost added = steps.deep_view();
        res.append(&mut steps);
        proof {
            assert(res.deep_view() =~= before + added);
        }
        i += 1;
    }
    proof {
        assert(views.take(views.len() as int) =~= views);
    }
    res
}

/// Draws the step at `index` of a new candidate: one of the votes of the
/// parents, at random; where nobody votes, one of the available steps, at
/// random. Whatever is drawn is an available step.
pub fn select_step(rng: &mut StdRng, available_steps: &Vec<&Step>, dnas: &Vec<DNA>, index: usize) -> (res:
    Step)
    requires
        available_steps@.len() > 0,
    ensures
        available_steps.deep_view().contains(res@),
{
    let choices = build_step_choices(available_steps, dnas, index);
    proof {
        lemma_choices_are_available(dna_views(dnas@), index, available_steps.deep_view());
    }
    if choices.len() == 0 {
        let chosen = random_below(rng, available_steps.len());
        proof {
            assert(available_steps.deep_view()[chosen as int] == available_steps@[chosen as int]@);
        }
        available_steps[chosen].clone()
    } else {
        pick_random(rng, &choices)
    }
}

/// One of the steps of `steps`, drawn at random.
pub fn pick_random(rng: &mut StdRng, steps: &Vec<Step>) -> (res: Step)
    requires
        steps@.len() > 0,
    ensures
        steps.deep_view().contains(res@),
{
    let chosen = random_below(rng, steps.len());
    proof {
        assert(steps.deep_view()[chosen as int] == steps@[chosen as int]@);
    }
    steps[chosen].clone()
}

/// The names of `steps`, borrowed, in order.
pub fn names_of_steps<'a>(steps: &'a Vec<(Step, Inventory)>) -> (res: Vec<&'a Step>)
    ensures
        res.deep_view() == step_names(steps.deep_view()),
{
    let mut res: Vec<&Step> = Vec::new();
    let mut i: usize = 0;
    while i < steps.len()
        invariant
            i <= steps@.len(),
            res@.len() == i,
            forall|k: int| 0 <= k < i ==> (#[trigger] res@[k])@ == steps@[k].0@,
        decreases steps@.len() - i,
    {
        res.push(&steps[i].0);
        i += 1;
    }
    proof {
        assert(res.deep_view() =~= step_names(steps.deep_view()));
    }
    res
}

/// Where the step called `name` stands in `steps`.
pub fn find_step(steps: &Vec<(Step, Inventory)>, name: &Step) -> (res: Option<usize>)
    ensures
        match res {
            Some(i) => i < steps@.len() && steps@[i as int].0@ == name@,
            None => !step_names(steps.deep_view()).contains(name@),
        },
{
    let mut i: usize = 0;
    while i < steps.len()
        invariant
            i <= steps@.len(),
            forall|k: int| 0 <= k < i ==> step_names(steps.deep_view())[k] != name@,
        decreases steps@.len() - i,
    {
        if steps[i].0 == *name {
            return Some(i);
        }
        i += 1;
    }
    None
}

/// Breeds one candidate of at most `max_depth` steps from the parents
/// `dnas`: from the starting stock on, the parents vote among the steps
/// that the stock allows, and one vote is drawn and taken, until
/// `max_depth` steps are taken or the stock allows none. Whatever is drawn,
/// the candidate can be run from the starting stock, and where it is
/// shorter than `max_depth` the stock that it reaches allows no further
/// step.
pub fn breed_one(simulation: &Simulation, rng: &mut StdRng, dnas: &Vec<DNA>, max_depth: usize) -> (res:
    Path)
    ensures
        is_candidate(simulation@, max_depth, res.deep_view()),
{
    let ghost processes = simulation@.processes;
    let ghost start = simulation@.inventory;
    let mut path: Path = Vec::new();
    let mut inventory = simulation.inventory.clone();
    let mut i: usize = 0;
    proof {
        assert(path.deep_view() =~= Seq::<Seq<char>>::empty());
    }
    while i < max_depth
        invariant
            i <= max_depth,
            path@.len() == i,
            processes == simulation@.processes,
            start == simulation@.inventory,
            run_spec(processes, path.deep_view(), start) == Ok::<Stock, crate::error::Failure>(
                inventory@,
            ),
        decreases max_depth - i,
    {
        let mut available_steps_i = get_available_steps(simulation, &inventory);
        if available_steps_i.len() == 0 {
            return path;
        }
        let ghost before = path.deep_view();
        let ghost reached = inventory@;
        let ghost listed = available_steps_i.deep_view();
        let step = {
            let available_steps = names_of_steps(&available_steps_i);
            proof {
                assert(available_steps.deep_view().len() == listed.len());
            }
            select_step(rng, &available_steps, dnas, i)
        };
        match find_step(&available_steps_i, &step) {
            None => {
                return path;
            },
            Some(at) => {
                proof {
                    lemma_available_sound(processes, processes.len() as int, reached);
                    assert(listed[at as int] == (
                        available_steps_i@[at as int].0@,
                        available_steps_i@[at as int].1@,
                    ));
                }
                let (step_name, next) = available_steps_i.swap_remove(at);
                proof {
                    lemma_run_extend(processes, before, start, reached, step_name@, next@);
                }
                inventory = next;
                path.push(step_name);
                proof {
                    assert(path.deep_view() =~= before.push(step_name@));
                }
            },
        }
        i += 1;
    }
    path
}

/// The score of a path that cannot be scored: the least score, so that such
/// a path comes last.
pub const FAILED_SCORE: Score = -9_223_372_036_854_775_808;

/// The score of `path`, or [`FAILED_SCORE`] where scoring fails.
pub open spec fn scored_spec(scorer: ScorerView, path: Seq<Seq<char>>) -> Score {
    match score_spec(scorer, path) {
        Ok(score) => score,
        Err(_) => FAILED_SCORE,
    }
}

/// Every path of `paths` with its score.
pub open spec fn scored_paths(scorer: ScorerView, paths: Seq<Seq<Seq<char>>>) -> Seq<
    (Score, Seq<Seq<char>>),
> {
    Seq::new(paths.len(), |i: int| (scored_spec(scorer, paths[i]), paths[i]))
}

/// The key that puts the greatest score first.
pub open spec fn descending_key() -> spec_fn((Score, Seq<Seq<char>>)) -> int {
    |entry: (Score, Seq<Seq<char>>)| -(entry.0 as int)
}

/// `paths` with their scores, the best first; paths of one score keep the
/// order in which they came.
pub open spec fn ranked_spec(scorer: ScorerView, paths: Seq<Seq<Seq<char>>>) -> Seq<
    (Score, Seq<Seq<char>>),
> {
    stable_rank(scored_paths(scorer, paths), descending_key())
}

/// The scores of `ranked`, in order.
pub open spec fn scores_of(ranked: Seq<(Score, Seq<Seq<char>>)>) -> Seq<Score> {
    Seq::new(ranked.len(), |i: int| ranked[i].0)
}

/// The parents that a selection keeps: the best `parents_size` of the
/// ranked paths, or all of them where there are fewer.
pub open spec fn parents_spec(scorer: ScorerView, paths: Seq<Seq<Seq<char>>>, parents_size: usize) -> Seq<
    (Score, Seq<Seq<char>>),
> {
    let ranked = ranked_spec(scorer, paths);
    if parents_size <= ranked.len() {
        ranked.take(parents_size as int)
    } else {
        ranked
    }
}

/// The number of parents that a generation of `generation_size` keeps: a
/// tenth of it, and at least one.
pub open spec fn parents_size_spec(generation_size: usize) -> usize {
    if generation_size / 10 > 1 {
        generation_size / 10
    } else {
        1
    }
}

/// A selection from a population that is at least as large as the number
/// of parents asked for keeps exactly that number; a smaller population is
/// kept whole. The parents stand in the order of their scores, the best
/// first, and each of them is a path of the population with its score.
pub proof fn lemma_selection_law(scorer: ScorerView, paths: Seq<Seq<Seq<char>>>, parents_size: usize)
    ensures
        paths.len() >= parents_size ==> parents_spec(scorer, paths, parents_size).len()
            == parents_size,
        paths.len() < parents_size ==> parents_spec(scorer, paths, parents_size).len()
            == paths.len(),
        forall|i: int, j: int|
            0 <= i <= j < parents_spec(scorer, paths, parents_size).len() ==> parents_spec(
                scorer,
                paths,
                parents_size,
            )[i].0 >= parents_spec(scorer, paths, parents_size)[j].0,
        forall|i: int|
            0 <= i < parents_spec(scorer, paths, parents_size).len() ==> exists|j: int|
                0 <= j < paths.len() && (#[trigger] parents_spec(scorer, paths, parents_size)[i])
                    == (scored_spec(scorer, paths[j]), paths[j]),
{
    broadcast use vstd::seq_lib::group_to_multiset_ensures;

    let scored = scored_paths(scorer, paths);
    let ranked = ranked_spec(scorer, paths);
    let parents = parents_spec(scorer, paths, parents_size);
    lemma_stable_rank(scored, descending_key());
    let keys = ranked.map_values(descending_key());
    assert forall|i: int, j: int| 0 <= i <= j < parents.len() implies parents[i].0
        >= parents[j].0 by {
        assert(keys[i] <= keys[j]);
        assert(keys[i] == -(ranked[i].0 as int));
        assert(keys[j] == -(ranked[j].0 as int));
    }
    assert forall|i: int| 0 <= i < parents.len() implies exists|j: int|
        0 <= j < paths.len() && (#[trigger] parents[i]) == (scored_spec(scorer, paths[j]), paths[j]) by {
        assert(parents[i] == ranked[i]);
        assert(ranked.contains(ranked[i]));
        assert(ranked.to_multiset().count(ranked[i]) > 0);
        assert(scored.to_multiset().count(ranked[i]) > 0);
        assert(scored.contains(ranked[i]));
        let j = choose|j: int| 0 <= j < scored.len() && scored[j] == ranked[i];
        assert(scored[j] == (scored_spec(scorer, paths[j]), paths[j]));
    }
}

/// From a generation of `generation_size` paths, one at least, a selection
/// keeps a tenth of them and at least one, in the order of their scores,
/// the best first.
pub proof fn lemma_generation_selection(
    scorer: ScorerView,
    population: Seq<Seq<Seq<char>>>,
    generation_size: usize,
)
    requires
        population.len() == generation_size,
        generation_size >= 1,
    ensures
        parents_spec(scorer, population, parents_size_spec(generation_size)).len() == (
        if generation_size / 10 > 1 {
            generation_size / 10
        } else {
            1
        }),
        forall|i: int, j: int|
            0 <= i <= j < parents_spec(
                scorer,
                population,
                parents_size_spec(generation_size),
            ).len() ==> parents_spec(scorer, population, parents_size_spec(generation_size))[i].0
                >= parents_spec(scorer, population, parents_size_spec(generation_size))[j].0,
{
    lemma_selection_law(scorer, population, parents_size_spec(generation_size));
}

/// Scores every path of `paths`, ranks them by score, the best first,
/// appends the mean and the best score to `stats`, and keeps the best
/// `parents_size` paths as parents. A path that cannot be scored counts
/// with [`FAILED_SCORE`].
pub fn select(scorer: &Scorer, stats: &mut Stats, parents_size: usize, paths: Vec<Path>) -> (res: Vec<
    (Score, Path),
>)
    ensures
        res.deep_view() == parents_spec(scorer@, paths.deep_view(), parents_size),
        final(stats).average_scores@ == old(stats).average_scores@.push(
            average_spec(scores_of(ranked_spec(scorer@, paths.deep_view()))) as Score,
        ),
        final(stats).best_scores@ == old(stats).best_scores@.push(
            best_spec(scores_of(ranked_spec(scorer@, paths.deep_view()))) as Score,
        ),
{
    let ghost all = paths.deep_view();
    let ghost scored = scored_paths(scorer@, all);
    let ghost key = descending_key();
    let mut p_scores: Vec<(Score, Path)> = Vec::new();
    let mut keys: Vec<i128> = Vec::new();
    let mut i: usize = 0;
    proof {
        assert(p_scores.deep_view() =~= stable_rank(scored.take(0), key));
        assert(keys@.map_values(|k: i128| k as int) =~= p_scores.deep_view().map_values(key));
    }
    while i < paths.len()
        invariant
            i <= paths@.len(),
            all == paths.deep_view(),
            scored == scored_paths(scorer@, all),
            key == descending_key(),
            p_scores.deep_view() == stable_rank(scored.take(i as int), key),
            keys@.map_values(|k: i128| k as int) == p_scores.deep_view().map_values(key),
        decreases paths@.len() - i,
    {
        let ghost before = p_scores.deep_view();
        let ghost before_keys = keys@;
        proof {
            assert(scored.take(i + 1).drop_last() =~= scored.take(i as int));
            assert(scored.take(i + 1).last() == scored[i as int]);
            assert(all[i as int] == paths@[i as int].deep_view());
            assert(keys@.len() == p_scores@.len()) by {
                assert(keys@.map_values(|k: i128| k as int).len() == p_scores.deep_view().map_values(
                    key,
                ).len());
            }
        }
        let path = clone_names(&paths[i]);
        let score = match scorer.score(&path) {
            Ok(score) => score,
            Err(_) => FAILED_SCORE,
        };
        let rank: i128 = -(score as i128);
        let at = find_slot(&keys, rank);
        p_scores.insert(at, (score, path));
        keys.insert(at, rank);
        proof {
            assert(p_scores.deep_view() =~= before.insert(at as int, scored[i as int]));
            assert(keys@.map_values(|k: i128| k as int) =~= before_keys.map_values(
                |k: i128| k as int,
            ).insert(at as int, rank as int));
            assert(p_scores.deep_view().map_values(key) =~= before.map_values(key).insert(
                at as int,
                key(scored[i as int]),
            ));
        }
        i += 1;
    }
    proof {
        assert(scored.take(scored.len() as int) =~= scored);
    }
    let ghost ranked = p_scores.deep_view();
    let mut scores: Vec<Score> = Vec::new();
    let mut j: usize = 0;
    while j < p_scores.len()
        invariant
            j <= p_scores@.len(),
            ranked == p_scores.deep_view(),
            scores@.len() == j,
            forall|k: int| 0 <= k < j ==> scores@[k] == ranked[k].0,
        decreases p_scores@.len() - j,
    {
        scores.push(p_scores[j].0);
        proof {
            assert(ranked[j as int].0 == p_scores@[j as int].0);
        }
        j += 1;
    }
    proof {
        assert(scores@ =~= scores_of(ranked));
    }
    stats.update_scores(scores);
    p_scores.truncate(parents_size);
    proof {
        if parents_size <= ranked.len() {
            assert(p_scores.deep_view() =~= ranked.take(parents_size as int));
        } else {
            assert(p_scores.deep_view() =~= ranked);
        }
    }
    p_scores
}

/// The state of one search.
pub struct GeneticSolver {
    pub mutation_chance: u64,
    pub max_depth: usize,
    pub generation_size: usize,
    pub parents_size: usize,
    pub iterations: usize,
    pub weights: Vec<usize>,
    pub simulation: Simulation,
    pub stats: Stats,
    pub scorer: Scorer,
}

impl GeneticSolver {
    /// A search on `simulation` as `config` asks for it: no generation run
    /// yet, a tenth of a generation kept as parents and at least one, the
    /// dependency-weighted scorer. Fails where the score map cannot be
    /// built.
    pub fn new(config: Config, simulation: Simulation) -> (res: Result<Self, Error>)
        ensures
            match res {
                Ok(solver) => {
                    &&& solver.mutation_chance == config.mutation_chance
                    &&& solver.max_depth == config.max_depth
                    &&& solver.generation_size == config.generation_size
                    &&& solver.iterations == config.iterations
                    &&& solver.parents_size == parents_size_spec(config.generation_size)
                    &&& solver.simulation@ == simulation@
                    &&& solver.scorer@.simulation == simulation@
                    &&& solver.scorer@.time_weight == (if simulation.optimize_time {
                        config.time_weight as nat
                    } else {
                        0
                    })
                    &&& score_map_spec(simulation@, TARGET_MULTIPLIER, BroScore::Hugo) == Ok::<
                        Weights,
                        crate::error::Failure,
                    >(solver.scorer@.weights)
                    &&& solver.stats.average_scores@.len() == 0
                    &&& solver.stats.best_scores@.len() == 0
                    &&& is_fibonacci_weights(
                        config.generation_size as nat,
                        solver.weights@.reverse(),
                    )
                },
                Err(error) => score_map_spec(simulation@, TARGET_MULTIPLIER, BroScore::Hugo)
                    == Err::<Weights, crate::error::Failure>(error@),
            },
    {
        let parents_percentage: usize = 10;
        let parents_size = if config.generation_size / parents_percentage > 1 {
            config.generation_size / parents_percentage
        } else {
            1
        };
        let scorer = match Scorer::new(simulation.clone(), config.time_weight, BroScore::Hugo) {
            Ok(scorer) => scorer,
            Err(error) => {
                return Err(error);
            },
        };
        let ascending = fibonacci_n(config.generation_size);
        let weights = reversed(&ascending);
        let solver = GeneticSolver {
            mutation_chance: config.mutation_chance,
            max_depth: config.max_depth,
            generation_size: config.generation_size,
            parents_size,
            iterations: config.iterations,
            weights,
            simulation,
            stats: Stats::new(),
            scorer,
        };
        proof {
            assert(solver.weights@.reverse() =~= ascending@);
        }
        Ok(solver)
    }

    /// The first generation: `generation_size` paths drawn at random.
    pub fn generate(&self, rng: &mut StdRng) -> (res: Vec<Path>)
        ensures
            is_generation(self.simulation@, self.max_depth, self.generation_size, res.deep_view()),
    {
        generate(&self.simulation, rng, self.generation_size, self.max_depth)
    }

    /// A generation bred from `parents`: `generation_size` candidates, each
    /// drawn step by step from the votes of the parents.
    pub fn reproduce(&self, rng: &mut StdRng, parents: Vec<(Score, Path)>) -> (res: Vec<Path>)
        ensures
            is_generation(self.simulation@, self.max_depth, self.generation_size, res.deep_view()),
    {
        let dnas = build_dnas(parents);
        let mut paths: Vec<Path> = Vec::new();
        let mut i: usize = 0;
        while i < self.generation_size
            invariant
                i <= self.generation_size,
                paths@.len() == i,
                forall|k: int|
                    0 <= k < paths@.len() ==> is_candidate(
                        self.simulation@,
                        self.max_depth,
                        (#[trigger] paths@[k]).deep_view(),
                    ),
            decreases self.generation_size - i,
        {
            let path = breed_one(&self.simulation, rng, &dnas, self.max_depth);
            paths.push(path);
            i += 1;
        }
        proof {
            assert forall|k: int| 0 <= k < paths.deep_view().len() implies is_candidate(
                self.simulation@,
                self.max_depth,
                #[trigger] paths.deep_view()[k],
            ) by {
                assert(paths.deep_view()[k] == paths@[k].deep_view());
            }
        }
        paths
    }

    /// Scores and ranks `paths`, records the generation in the statistics
    /// and keeps the best `parents_size` of them.
    pub fn select(&mut self, paths: Vec<Path>) -> (res: Vec<(Score, Path)>)
        ensures
            res.deep_view() == parents_spec(old(self).scorer@, paths.deep_view(), old(self).parents_size),
            final(self).stats.average_scores@ == old(self).stats.average_scores@.push(
                average_spec(scores_of(ranked_spec(old(self).scorer@, paths.deep_view()))) as Score,
            ),
            final(self).stats.best_scores@ == old(self).stats.best_scores@.push(
                best_spec(scores_of(ranked_spec(old(self).scorer@, paths.deep_view()))) as Score,
            ),
            final(self).scorer == old(self).scorer,
            final(self).simulation == old(self).simulation,
            final(self).max_depth == old(self).max_depth,
            final(self).generation_size == old(self).generation_size,
            final(self).parents_size == old(self).parents_size,
            final(self).iterations == old(self).iterations,
            final(self).mutation_chance == old(self).mutation_chance,
            final(self).weights == old(self).weights,
    {
        select(&self.scorer, &mut self.stats, self.parents_size, paths)
    }

    /// Runs the search: `iterations` generations, the first drawn at
    /// random, every later one bred from the parents selected before it.
    /// Gives the batches of the best parent of the last selection, and the
    /// statistics with one entry more for every generation. Without a
    /// generation, and where the last generation is empty, the best parent
    /// is the empty path.
    pub fn solve(&mut self, rng: &mut StdRng) -> (res: Result<(Production, Stats), Error>)
        ensures
            final(self).stats.average_scores@.len() == old(self).stats.average_scores@.len() + old(self).iterations,
            final(self).stats.best_scores@.len() == old(self).stats.best_scores@.len() + old(self).iterations,
            exists|population: Seq<Seq<Seq<char>>>| #[trigger]
                is_last_generation(*old(self), population) && ends_search(
                    *old(self),
                    population,
                    final(self).stats,
                    res,
                ),
    {
        let mut parents: Vec<(Score, Path)> = Vec::new();
        let ghost mut population: Seq<Seq<Seq<char>>> = Seq::empty();
        let mut i: usize = 0;
        proof {
            assert(parents.deep_view() =~= Seq::<(Score, Seq<Seq<char>>)>::empty());
            lemma_rank_nothing(self.scorer@, self.parents_size);
        }
        while i < self.iterations
            invariant
                i <= self.iterations,
                self.scorer == old(self).scorer,
                self.simulation == old(self).simulation,
                self.max_depth == old(self).max_depth,
                self.generation_size == old(self).generation_size,
                self.parents_size == old(self).parents_size,
                self.iterations == old(self).iterations,
                self.stats.average_scores@.len() == old(self).stats.average_scores@.len() + i,
                self.stats.best_scores@.len() == old(self).stats.best_scores@.len() + i,
                parents.deep_view() == parents_spec(self.scorer@, population, self.parents_size),
                i == 0 ==> population.len() == 0,
                i > 0 ==> is_generation(
                    self.simulation@,
                    self.max_depth,
                    self.generation_size,
                    population,
                ) && self.stats.average_scores@.last() == average_spec(
                    scores_of(ranked_spec(self.scorer@, population)),
                ) as Score && self.stats.best_scores@.last() == best_spec(
                    scores_of(ranked_spec(self.scorer@, population)),
                ) as Score,
            decreases self.iterations - i,
        {
            let generation = if i == 0 {
                self.generate(rng)
            } else {
                self.reproduce(rng, parents)
            };
            proof {
                population = generation.deep_view();
            }
            parents = self.select(generation);
            i += 1;
        }
        let best: Path = if parents.len() > 0 {
            clone_names(&parents[0].1)
        } else {
            Vec::new()
        };
        proof {
            if parents@.len() == 0 {
                assert(best.deep_view() =~= Seq::<Seq<char>>::empty());
            } else {
                assert(parents.deep_view()[0] == (parents@[0].0, parents@[0].1.deep_view()));
            }
            assert(best.deep_view() == best_of(self.scorer@, population, self.parents_size));
            assert(is_last_generation(*old(self), population));
        }
        let res = match batchify(&self.simulation, best) {
            Ok(production) => Ok((production, self.stats.clone())),
            Err(error) => Err(error),
        };
        proof {
            assert(ends_search(*old(self), population, self.stats, res));
        }
        res
    }
}

/// The best of a population: the first of the parents that a selection
/// keeps, or the empty path where it keeps none.
pub open spec fn best_of(scorer: ScorerView, population: Seq<Seq<Seq<char>>>, parents_size: usize) -> Seq<
    Seq<char>,
> {
    let parents = parents_spec(scorer, population, parents_size);
    if parents.len() > 0 {
        parents[0].1
    } else {
        Seq::empty()
    }
}

/// `population` can be the last generation of the search `solver`: a
/// generation of candidates, or nothing where the search runs no
/// generation.
pub open spec fn is_last_generation(solver: GeneticSolver, population: Seq<Seq<Seq<char>>>) -> bool {
    if solver.iterations == 0 {
        population.len() == 0
    } else {
        is_generation(solver.simulation@, solver.max_depth, solver.generation_size, population)
    }
}

/// The search `solver`, whose last generation was `population`, ends with
/// `stats` and `res`: `res` is what batching the best of `population`
/// gives, with a copy of `stats`, and the last entry of `stats` is the mean
/// and the best score of `population`.
pub open spec fn ends_search(
    solver: GeneticSolver,
    population: Seq<Seq<Seq<char>>>,
    stats: Stats,
    res: Result<(Production, Stats), Error>,
) -> bool {
    let best = best_of(solver.scorer@, population, solver.parents_size);
    let scores = scores_of(ranked_spec(solver.scorer@, population));
    &&& solver.iterations > 0 ==> stats.average_scores@.last() == average_spec(scores) as Score
        && stats.best_scores@.last() == best_spec(scores) as Score
    &&& match res {
        Ok(pair) => batchify_spec(solver.simulation@, best) == Ok::<
            Seq<BatchView>,
            crate::error::Failure,
        >(production_view(pair.0@)) && pair.1.average_scores@ == stats.average_scores@
            && pair.1.best_scores@ == stats.best_scores@,
        Err(error) => batchify_spec(solver.simulation@, best) == Err::<
            Seq<BatchView>,
            crate::error::Failure,
        >(error@),
    }
}

/// A selection from no path keeps no parent.
pub proof fn lemma_rank_nothing(scorer: ScorerView, parents_size: usize)
    ensures
        parents_spec(scorer, Seq::empty(), parents_size) == Seq::<(Score, Seq<Seq<char>>)>::empty(),
{
    assert(scored_paths(scorer, Seq::empty()) =~= Seq::<(Score, Seq<Seq<char>>)>::empty());
    assert(parents_spec(scorer, Seq::empty(), parents_size) =~= Seq::<
        (Score, Seq<Seq<char>>),
    >::empty());
}

/// The best of a generation is a candidate of the search.
pub proof fn lemma_best_is_candidate(
    scorer: ScorerView,
    simulation: SimulationView,
    max_depth: usize,
    population: Seq<Seq<Seq<char>>>,
    parents_size: usize,
)
    requires
        forall|k: int|
            0 <= k < population.len() ==> is_candidate(simulation, max_depth, #[trigger] population[k]),
    ensures
        is_candidate(simulation, max_depth, best_of(scorer, population, parents_size)) || (best_of(
            scorer,
            population,
            parents_size,
        ).len() == 0),
{
    lemma_selection_law(scorer, population, parents_size);
    let parents = parents_spec(scorer, population, parents_size);
    if parents.len() > 0 {
        let j = choose|j: int|
            0 <= j < population.len() && parents[0] == (
                scored_spec(scorer, population[j]),
                population[j],
            );
        assert(is_candidate(simulation, max_depth, population[j]));
    }
}

/// Searches a schedule for `simulation` as `config` asks, with a random
/// number generator that starts from `seed`: `iterations` generations of
/// `generation_size` candidates of at most `max_depth` steps, the first
/// drawn at random, every later one bred from the best tenth of the one
/// before it. Gives the batches of the best candidate of the last
/// generation, and the mean and best score of each generation. Fails where
/// the score map cannot be built, and where the best candidate cannot be
/// batched.
pub fn solve(simulation: Simulation, config: Config, seed: u64) -> (res: Result<
    (Production, Stats),
    Error,
>)
    ensures
        is_solution(simulation@, config, res),
{
    let mut rng = seeded_rng(seed);
    let mut solver = match GeneticSolver::new(config, simulation) {
        Ok(solver) => solver,
        Err(error) => {
            return Err(error);
        },
    };
    let ghost before = solver;
    let res = solver.solve(&mut rng);
    proof {
        let population = choose|population: Seq<Seq<Seq<char>>>| #[trigger]
            is_last_generation(before, population) && ends_search(
                before,
                population,
                solver.stats,
                res,
            );
        let weights = score_map_spec(simulation@, TARGET_MULTIPLIER, BroScore::Hugo)->Ok_0;
        assert(weights == before.scorer@.weights);
        assert(found_by_search(simulation@, config, weights, population, res));
        assert(exists|population: Seq<Seq<Seq<char>>>| #[trigger]
            found_by_search(simulation@, config, weights, population, res));
    }
    res
}

/// What a search on `simulation` with the settings `config` can give: the
/// failure to build the score map, or what the search finds with some last
/// generation.
pub open spec fn is_solution(
    simulation: SimulationView,
    config: Config,
    res: Result<(Production, Stats), Error>,
) -> bool {
    match score_map_spec(simulation, TARGET_MULTIPLIER, BroScore::Hugo) {
        Err(failure) => res is Err && res->Err_0@ == failure,
        Ok(weights) => exists|population: Seq<Seq<Seq<char>>>| #[trigger]
            found_by_search(simulation, config, weights, population, res),
    }
}

/// What a search on `simulation` with the settings `config` and the score
/// map `weights` gives when its last generation is `population`: the
/// batches of the best of `population`, or the failure of batching it, and
/// statistics with one entry for every generation, the last of which is the
/// mean and the best score of `population`.
pub open spec fn found_by_search(
    simulation: SimulationView,
    config: Config,
    weights: Weights,
    population: Seq<Seq<Seq<char>>>,
    res: Result<(Production, Stats), Error>,
) -> bool {
    let scorer = ScorerView {
        simulation,
        weights,
        time_weight: if simulation.optimize_time {
            config.time_weight as nat
        } else {
            0
        },
    };
    let best = best_of(scorer, population, parents_size_spec(config.generation_size));
    let scores = scores_of(ranked_spec(scorer, population));
    &&& if config.iterations == 0 {
        population.len() == 0
    } else {
        is_generation(simulation, config.max_depth, config.generation_size, population)
    }
    &&& match res {
        Ok(pair) => {
            &&& batchify_spec(simulation, best) == Ok::<Seq<BatchView>, crate::error::Failure>(
                production_view(pair.0@),
            )
            &&& pair.1.average_scores@.len() == config.iterations
            &&& pair.1.best_scores@.len() == config.iterations
            &&& config.iterations > 0 ==> pair.1.average_scores@.last() == average_spec(scores) as Score
                && pair.1.best_scores@.last() == best_spec(scores) as Score
        },
        Err(error) => batchify_spec(simulation, best) == Err::<
            Seq<BatchView>,
            crate::error::Failure,
        >(error@),
    }
}

} // verus!
