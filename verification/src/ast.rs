//! The data model: resources, processes and the simulation catalog.

use vstd::prelude::*;
use crate::inventory::{Inventory, Stock};

verus! {

/// An amount of a named commodity.
#[derive(Debug, PartialEq, Eq)]
pub struct Resource {
    pub name: String,
    pub quantity: usize,
}

/// The mathematical value of a [`Resource`].
pub struct ResourceView {
    pub name: Seq<char>,
    pub quantity: nat,
}

impl DeepView for Resource {
    type V = ResourceView;

    open spec fn deep_view(&self) -> ResourceView {
        ResourceView { name: self.name@, quantity: self.quantity as nat }
    }
}

impl View for Resource {
    type V = ResourceView;

    open spec fn view(&self) -> ResourceView {
        self.deep_view()
    }
}

impl Clone for Resource {
    fn clone(&self) -> (res: Self)
        ensures
            res@ == self@,
    {
        Resource { name: self.name.clone(), quantity: self.quantity }
    }
}

/// A copy of a list of resources.
pub fn clone_resources(list: &Vec<Resource>) -> (res: Vec<Resource>)
    ensures
        res.deep_view() == list.deep_view(),
{
    let mut res: Vec<Resource> = Vec::new();
    let mut i: usize = 0;
    while i < list.len()
        invariant
            i <= list@.len(),
            res@.len() == i,
            forall|k: int| 0 <= k < i ==> (#[trigger] res@[k])@ == list@[k]@,
        decreases list@.len() - i,
    {
        res.push(list[i].clone());
        i += 1;
    }
    proof {
        assert(res.deep_view() =~= list.deep_view());
    }
    res
}

/// A copy of a list of names.
pub fn clone_names(list: &Vec<String>) -> (res: Vec<String>)
    ensures
        res.deep_view() == list.deep_view(),
{
    let mut res: Vec<String> = Vec::new();
    let mut i: usize = 0;
    while i < list.len()
        invariant
            i <= list@.len(),
            res@.len() == i,
            forall|k: int| 0 <= k < i ==> (#[trigger] res@[k])@ == list@[k]@,
        decreases list@.len() - i,
    {
        res.push(list[i].clone());
        i += 1;
    }
    proof {
        assert(res.deep_view() =~= list.deep_view());
    }
    res
}

/// A named transformation: it takes `input` out of a stock and, after
/// `duration`, puts `output` into it.
#[derive(Debug, PartialEq, Eq)]
pub struct Process {
    pub name: String,
    pub input: Vec<Resource>,
    pub output: Vec<Resource>,
    pub duration: usize,
}

/// The mathematical value of a [`Process`].
pub struct ProcessView {
    pub name: Seq<char>,
    pub input: Seq<ResourceView>,
    pub output: Seq<ResourceView>,
    pub duration: nat,
}

impl DeepView for Process {
    type V = ProcessView;

    open spec fn deep_view(&self) -> ProcessView {
        ProcessView {
            name: self.name@,
            input: self.input.deep_view(),
            output: self.output.deep_view(),
            duration: self.duration as nat,
        }
    }
}

impl View for Process {
    type V = ProcessView;

    open spec fn view(&self) -> ProcessView {
        self.deep_view()
    }
}

impl Process {
    /// A process of the given name, input, output and duration.
    pub fn new(name: String, input: Vec<Resource>, output: Vec<Resource>, duration: usize) -> (res:
        Self)
        ensures
            res.name == name,
            res.input == input,
            res.output == output,
            res.duration == duration,
    {
        Process { name, input, output, duration }
    }
}

impl Clone for Process {
    fn clone(&self) -> (res: Self)
        ensures
            res@ == self@,
    {
        Process {
            name: self.name.clone(),
            input: clone_resources(&self.input),
            output: clone_resources(&self.output),
            duration: self.duration,
        }
    }
}

/// The catalog: a starting stock, the processes by name, the resources to
/// maximise, and whether elapsed time counts against a schedule.
#[derive(Debug, PartialEq, Eq)]
pub struct Simulation {
    pub inventory: Inventory,
    pub processes: Vec<Process>,
    pub optimize: Vec<String>,
    pub optimize_time: bool,
}

/// The mathematical value of a [`Simulation`].
pub struct SimulationView {
    pub inventory: Stock,
    pub processes: Seq<ProcessView>,
    pub optimize: Seq<Seq<char>>,
    pub optimize_time: bool,
}

impl DeepView for Simulation {
    type V = SimulationView;

    open spec fn deep_view(&self) -> SimulationView {
        SimulationView {
            inventory: self.inventory@,
            processes: self.processes.deep_view(),
            optimize: self.optimize.deep_view(),
            optimize_time: self.optimize_time,
        }
    }
}

impl View for Simulation {
    type V = SimulationView;

    open spec fn view(&self) -> SimulationView {
        self.deep_view()
    }
}

/// The first process of `processes` that carries `name`.
pub open spec fn lookup(processes: Seq<ProcessView>, name: Seq<char>) -> Option<ProcessView>
    decreases processes.len(),
{
    if processes.len() == 0 {
        None
    } else if processes[0].name == name {
        Some(processes[0])
    } else {
        lookup(processes.skip(1), name)
    }
}

/// Finds the process called `name` in a catalog.
pub fn find_process<'a>(processes: &'a Vec<Process>, name: &String) -> (res: Option<&'a Process>)
    ensures
        match res {
            Some(process) => lookup(processes.deep_view(), name@) == Some(process@),
            None => lookup(processes.deep_view(), name@) is None,
        },
{
    let mut i: usize = 0;
    proof {
        assert(processes.deep_view().skip(0) =~= processes.deep_view());
    }
    while i < processes.len()
        invariant
            i <= processes@.len(),
            lookup(processes.deep_view(), name@) == lookup(
                processes.deep_view().skip(i as int),
                name@,
            ),
        decreases processes@.len() - i,
    {
        proof {
            assert(processes.deep_view().skip(i as int)[0] == processes@[i as int]@);
            assert(processes.deep_view().skip(i as int).skip(1) =~= processes.deep_view().skip(
                i + 1,
            ));
        }
        if processes[i].name == *name {
            return Some(&processes[i]);
        }
        i += 1;
    }
    None
}

impl Clone for Simulation {
    fn clone(&self) -> (res: Self)
        ensures
            res@ == self@,
    {
        let mut processes: Vec<Process> = Vec::new();
        let mut i: usize = 0;
        while i < self.processes.len()
            invariant
                i <= self.processes@.len(),
                processes@.len() == i,
                forall|k: int| 0 <= k < i ==> (#[trigger] processes@[k])@ == self.processes@[k]@,
            decreases self.processes@.len() - i,
        {
            processes.push(self.processes[i].clone());
            i += 1;
        }
        proof {
            assert(processes.deep_view() =~= self.processes.deep_view());
        }
        Simulation {
            inventory: self.inventory.clone(),
            processes,
            optimize: clone_names(&self.optimize),
            optimize_time: self.optimize_time,
        }
    }
}

impl Simulation {
    /// A catalog of the given stock and processes; `optimize` holds the
    /// targets and whether time is to be optimised.
    pub fn new(inventory: Inventory, processes: Vec<Process>, optimize: (Vec<String>, bool)) -> (res:
        Self)
        ensures
            res.inventory == inventory,
            res.processes == processes,
            res.optimize == optimize.0,
            res.optimize_time == optimize.1,
    {
        let (optimize, optimize_time) = optimize;
        Simulation { inventory, processes, optimize, optimize_time }
    }
}

/// A process as the description of a catalog gives it.
#[derive(Debug)]
pub struct ProcessBuilder {
    pub name: String,
    pub input: Vec<Resource>,
    pub output: Vec<Resource>,
    pub duration: usize,
}

impl DeepView for ProcessBuilder {
    type V = ProcessView;

    open spec fn deep_view(&self) -> ProcessView {
        ProcessView {
            name: self.name@,
            input: self.input.deep_view(),
            output: self.output.deep_view(),
            duration: self.duration as nat,
        }
    }
}

impl View for ProcessBuilder {
    type V = ProcessView;

    open spec fn view(&self) -> ProcessView {
        self.deep_view()
    }
}

impl ProcessBuilder {
    /// The description of a process of the given name, input, output and
    /// duration.
    pub fn new(name: String, input: Vec<Resource>, output: Vec<Resource>, duration: usize) -> (res:
        Self)
        ensures
            res.name == name,
            res.input == input,
            res.output == output,
            res.duration == duration,
    {
        ProcessBuilder { name, input, output, duration }
    }
}

impl Clone for ProcessBuilder {
    fn clone(&self) -> (res: Self)
        ensures
            res@ == self@,
    {
        ProcessBuilder {
            name: self.name.clone(),
            input: clone_resources(&self.input),
            output: clone_resources(&self.output),
            duration: self.duration,
        }
    }
}

impl Process {
    /// The process that `builder` describes.
    pub fn from_builder(builder: &ProcessBuilder) -> (res: Self)
        ensures
            res@ == builder@,
    {
        Process {
            name: builder.name.clone(),
            input: clone_resources(&builder.input),
            output: clone_resources(&builder.output),
            duration: builder.duration,
        }
    }
}

impl From<&ProcessBuilder> for Process {
    fn from(p: &ProcessBuilder) -> (res: Self) {
        Process::from_builder(p)
    }
}

impl vstd::std_specs::convert::FromSpecImpl<&ProcessBuilder> for Process {
    /// The conversion makes a copy; what it promises is stated by
    /// [`Process::from_builder`], over views.
    open spec fn obeys_from_spec() -> bool {
        false
    }

    open spec fn from_spec(p: &ProcessBuilder) -> Self {
        arbitrary()
    }
}

/// The position of the first process of `processes` that carries `name`.
pub open spec fn process_index(processes: Seq<ProcessView>, name: Seq<char>) -> Option<int>
    decreases processes.len(),
{
    if processes.len() == 0 {
        None
    } else if processes[0].name == name {
        Some(0)
    } else {
        match process_index(processes.skip(1), name) {
            Some(i) => Some(i + 1),
            None => None,
        }
    }
}

/// `processes` with `process` put under its name: in the place of the first
/// process of that name, or at the end where there is none.
pub open spec fn put_process(processes: Seq<ProcessView>, process: ProcessView) -> Seq<ProcessView> {
    match process_index(processes, process.name) {
        Some(i) => processes.update(i, process),
        None => processes.push(process),
    }
}

/// A catalog under construction.
#[derive(Debug)]
pub struct SimulationBuilder {
    pub inventory: Inventory,
    pub processes: Vec<ProcessBuilder>,
    pub optimize: Vec<String>,
    pub optimize_time: bool,
}

impl DeepView for SimulationBuilder {
    type V = SimulationView;

    open spec fn deep_view(&self) -> SimulationView {
        SimulationView {
            inventory: self.inventory@,
            processes: self.processes.deep_view(),
            optimize: self.optimize.deep_view(),
            optimize_time: self.optimize_time,
        }
    }
}

impl View for SimulationBuilder {
    type V = SimulationView;

    open spec fn view(&self) -> SimulationView {
        self.deep_view()
    }
}

/// Where the first process called `name` stands in `processes`.
fn find_builder(processes: &Vec<ProcessBuilder>, name: &String) -> (res: Option<usize>)
    ensures
        match res {
            Some(i) => i < processes@.len() && process_index(processes.deep_view(), name@) == Some(
                i as int,
            ),
            None => process_index(processes.deep_view(), name@) is None,
        },
{
    let ghost all = processes.deep_view();
    let mut i: usize = 0;
    proof {
        assert(all.skip(0) =~= all);
    }
    while i < processes.len()
        invariant
            i <= processes@.len(),
            all == processes.deep_view(),
            process_index(all, name@) == match process_index(all.skip(i as int), name@) {
                Some(k) => Some(k + i),
                None => None,
            },
        decreases processes@.len() - i,
    {
        proof {
            assert(all.skip(i as int)[0] == processes@[i as int]@);
            assert(all.skip(i as int).skip(1) =~= all.skip(i + 1));
        }
        if processes[i].name == *name {
            return Some(i);
        }
        i += 1;
    }
    None
}

impl SimulationBuilder {
    /// The empty catalog: no stock, no process, nothing to optimise.
    pub fn default() -> (res: Self)
        ensures
            res@ == (SimulationView {
                inventory: Map::empty(),
                processes: Seq::empty(),
                optimize: Seq::empty(),
                optimize_time: false,
            }),
    {
        let res = SimulationBuilder {
            inventory: Inventory::new(),
            processes: Vec::new(),
            optimize: Vec::new(),
            optimize_time: false,
        };
        proof {
            assert(res.processes.deep_view() =~= Seq::<ProcessView>::empty());
            assert(res.optimize.deep_view() =~= Seq::<Seq<char>>::empty());
        }
        res
    }

    /// A catalog under construction with the given stock and processes;
    /// `optimize` holds the targets and whether time is to be optimised.
    pub fn new(inventory: Inventory, processes: Vec<ProcessBuilder>, optimize: (Vec<String>, bool)) -> (res:
        Self)
        ensures
            res.inventory == inventory,
            res.processes == processes,
            res.optimize == optimize.0,
            res.optimize_time == optimize.1,
    {
        let (optimize, optimize_time) = optimize;
        SimulationBuilder { inventory, processes, optimize, optimize_time }
    }

    /// Sets the starting quantity of `name`.
    pub fn add_inventory(self, name: String, quantity: usize) -> (res: Self)
        ensures
            res@ == (SimulationView {
                inventory: self@.inventory.insert(name@, quantity as nat),
                ..self@
            }),
    {
        let mut res = self;
        res.inventory.insert(name, quantity);
        res
    }

    /// Puts `process` into the catalog, in the place of the process of the
    /// same name if there is one.
    pub fn add_process(self, process: ProcessBuilder) -> (res: Self)
        ensures
            res@ == (SimulationView { processes: put_process(self@.processes, process@), ..self@ }),
    {
        let mut res = self;
        let ghost before = res.processes.deep_view();
        match find_builder(&res.processes, &process.name) {
            Some(i) => {
                res.processes[i] = process;
                proof {
                    assert(res.processes.deep_view() =~= before.update(i as int, process@));
                }
            },
            None => {
                res.processes.push(process);
                proof {
                    assert(res.processes.deep_view() =~= before.push(process@));
                }
            },
        }
        res
    }

    /// Sets the targets, and whether time is to be optimised.
    pub fn optimize(self, optimize: (Vec<String>, bool)) -> (res: Self)
        ensures
            res@ == (SimulationView {
                optimize: optimize.0.deep_view(),
                optimize_time: optimize.1,
                ..self@
            }),
    {
        let mut res = self;
        let (optimize, optimize_time) = optimize;
        res.optimize = optimize;
        res.optimize_time = optimize_time;
        res
    }
}

impl Simulation {
    /// The catalog that `builder` describes.
    pub fn from_builder(builder: SimulationBuilder) -> (res: Self)
        ensures
            res@ == builder@,
    {
        let mut processes: Vec<Process> = Vec::new();
        let mut i: usize = 0;
        while i < builder.processes.len()
            invariant
                i <= builder.processes@.len(),
                processes@.len() == i,
                forall|k: int| 0 <= k < i ==> (#[trigger] processes@[k])@ == builder.processes@[k]@,
            decreases builder.processes@.len() - i,
        {
            processes.push(Process::from_builder(&builder.processes[i]));
            i += 1;
        }
        proof {
            assert(processes.deep_view() =~= builder.processes.deep_view());
        }
        Simulation {
            inventory: builder.inventory,
            processes,
            optimize: builder.optimize,
            optimize_time: builder.optimize_time,
        }
    }
}

impl From<SimulationBuilder> for Simulation {
    fn from(s: SimulationBuilder) -> (res: Self) {
        Simulation::from_builder(s)
    }
}

impl vstd::std_specs::convert::FromSpecImpl<SimulationBuilder> for Simulation {
    /// The conversion copies the processes; what it promises is stated by
    /// [`Simulation::from_builder`], over views.
    open spec fn obeys_from_spec() -> bool {
        false
    }

    open spec fn from_spec(s: SimulationBuilder) -> Self {
        arbitrary()
    }
}

/// Reads the description `content` of a catalog.
pub fn parse(content: String) -> (res: Result<Simulation, crate::parser::ParseError>)
    ensures
        match res {
            Ok(simulation) => crate::parser::parse_spec(content@) == Ok::<SimulationView, crate::parser::ParseError>(simulation@),
            Err(error) => crate::parser::parse_spec(content@) == Err::<SimulationView, crate::parser::ParseError>(error),
        },
{
    match crate::parser::SimulationBuilderParser::new().parse(content.as_str()) {
        Err(error) => Err(error),
        Ok(builder) => Ok(Simulation::from_builder(builder)),
    }
}

} // verus!
