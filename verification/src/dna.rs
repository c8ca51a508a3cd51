//! What a candidate inherits from a parent: the parent's path, the steps
//! that the parent used, ranked, and the number of votes that the parent
//! casts.

use vstd::prelude::*;
use crate::score::Score;
use crate::solver::{Path, Step};
use crate::utils::{find_slot, is_in_names, stable_rank};

verus! {

/// How often `name` occurs in `path`.
pub open spec fn count_of(path: Seq<Seq<char>>, name: Seq<char>) -> nat
    decreases path.len(),
{
    if path.len() == 0 {
        0
    } else {
        let last: nat = if path.last() == name {
            1
        } else {
            0
        };
        count_of(path.drop_last(), name) + last
    }
}

/// The names of `path`, each once, in the order in which they first occur.
pub open spec fn distinct_steps(path: Seq<Seq<char>>) -> Seq<Seq<char>>
    decreases path.len(),
{
    if path.len() == 0 {
        Seq::empty()
    } else {
        let before = distinct_steps(path.drop_last());
        if before.contains(path.last()) {
            before
        } else {
            before.push(path.last())
        }
    }
}

/// The key by which the steps of `path` are ranked: how often each occurs.
pub open spec fn count_key(path: Seq<Seq<char>>) -> spec_fn(Seq<char>) -> int {
    |name: Seq<char>| count_of(path, name) as int
}

/// The distinct steps of `path`, the rarest first; steps that occur equally
/// often stand in the order in which they first occur.
pub open spec fn favorite_spec(path: Seq<Seq<char>>) -> Seq<Seq<char>> {
    stable_rank(distinct_steps(path), count_key(path))
}

/// The votes that a parent with `score` casts among `len` parents: one per
/// hundredth of `score / len`, that ratio kept between 0 and 1. A parent
/// among none casts as one whose ratio is above 1.
pub open spec fn votes_spec(score: Score, len: usize) -> nat {
    if score <= 0 {
        0
    } else if len == 0 || score >= len {
        100
    } else {
        ((100 * score) / (len as int)) as nat
    }
}

/// The first of `favorites` that is in `available`; the first of
/// `available` where none is.
pub open spec fn best_available_spec(favorites: Seq<Seq<char>>, available: Seq<Seq<char>>) -> Seq<
    char,
>
    decreases favorites.len(),
{
    if favorites.len() == 0 {
        available[0]
    } else if available.contains(favorites[0]) {
        favorites[0]
    } else {
        best_available_spec(favorites.skip(1), available)
    }
}

/// The mathematical value of a [`DNA`].
pub struct DnaView {
    pub path: Seq<Seq<char>>,
    pub favorite_steps: Seq<Seq<char>>,
    pub votes: nat,
}

/// The step that a parent prefers at `index`: its own step there if that is
/// available, else the first of its favorites that is.
pub open spec fn pick_step_spec(dna: DnaView, index: usize, available: Seq<Seq<char>>) -> Seq<char> {
    if index < dna.path.len() && available.contains(dna.path[index as int]) {
        dna.path[index as int]
    } else {
        best_available_spec(dna.favorite_steps, available)
    }
}

/// The votes of a parent at `index`: its preferred step, once per vote.
pub open spec fn pick_steps_spec(dna: DnaView, index: usize, available: Seq<Seq<char>>) -> Seq<
    Seq<char>,
> {
    Seq::new(dna.votes, |i: int| pick_step_spec(dna, index, available))
}

/// What a candidate inherits from one parent.
pub struct DNA {
    path: Path,
    favorite_steps: Vec<Step>,
    probability: usize,
}

impl View for DNA {
    type V = DnaView;

    closed spec fn view(&self) -> DnaView {
        DnaView {
            path: self.path.deep_view(),
            favorite_steps: self.favorite_steps.deep_view(),
            votes: self.probability as nat,
        }
    }
}

/// Whether `value` stands in `vec`.
pub fn is_in_vec(value: &Step, vec: &Vec<&Step>) -> (res: bool)
    ensures
        res == vec.deep_view().contains(value@),
{
    let mut i: usize = 0;
    while i < vec.len()
        invariant
            i <= vec@.len(),
            forall|k: int| 0 <= k < i ==> vec.deep_view()[k] != value@,
        decreases vec@.len() - i,
    {
        if *vec[i] == *value {
            proof {
                assert(vec.deep_view()[i as int] == value@);
            }
            return true;
        }
        i += 1;
    }
    false
}

/// How often `name` occurs in `path`.
pub fn count_step(path: &Path, name: &Step) -> (res: usize)
    ensures
        res == count_of(path.deep_view(), name@),
{
    let ghost all = path.deep_view();
    let mut count: usize = 0;
    let mut i: usize = 0;
    while i < path.len()
        invariant
            i <= path@.len(),
            all == path.deep_view(),
            count == count_of(all.take(i as int), name@),
            count <= i,
        decreases path@.len() - i,
    {
        proof {
            assert(all.take(i + 1).drop_last() =~= all.take(i as int));
            assert(all.take(i + 1).last() == path@[i as int]@);
        }
        if path[i] == *name {
            count += 1;
        }
        i += 1;
    }
    proof {
        assert(all.take(all.len() as int) =~= all);
    }
    count
}

/// The names of `path`, each once, in the order in which they first occur.
pub fn distinct_names(path: &Path) -> (res: Vec<Step>)
    ensures
        res.deep_view() == distinct_steps(path.deep_view()),
{
    let ghost all = path.deep_view();
    let mut res: Vec<Step> = Vec::new();
    let mut i: usize = 0;
    proof {
        assert(res.deep_view() =~= distinct_steps(all.take(0)));
    }
    while i < path.len()
        invariant
            i <= path@.len(),
            all == path.deep_view(),
            res.deep_view() == distinct_steps(all.take(i as int)),
        decreases path@.len() - i,
    {
        let ghost before = res.deep_view();
        proof {
            assert(all.take(i + 1).drop_last() =~= all.take(i as int));
            assert(all.take(i + 1).last() == path@[i as int]@);
        }
        if !is_in_names(&path[i], &res) {
            res.push(path[i].clone());
            proof {
                assert(res.deep_view() =~= before.push(path@[i as int]@));
            }
        }
        i += 1;
    }
    proof {
        assert(all.take(all.len() as int) =~= all);
    }
    res
}

/// Ranks the distinct steps of `path` by how often `path` uses them, the
/// rarest first; steps used equally often stay in the order in which they
/// first occur.
pub fn build_favorite_steps(path: &Path) -> (res: Vec<Step>)
    ensures
        res.deep_view() == favorite_spec(path.deep_view()),
{
    let names = distinct_names(path);
    let ghost all = names.deep_view();
    let ghost key = count_key(path.deep_view());
    let mut ranked: Vec<Step> = Vec::new();
    let mut keys: Vec<i128> = Vec::new();
    let mut i: usize = 0;
    proof {
        assert(ranked.deep_view() =~= stable_rank(all.take(0), key));
        assert(keys@.map_values(|k: i128| k as int) =~= ranked.deep_view().map_values(key));
    }
    while i < names.len()
        invariant
            i <= names@.len(),
            all == names.deep_view(),
            key == count_key(path.deep_view()),
            ranked.deep_view() == stable_rank(all.take(i as int), key),
            keys@.map_values(|k: i128| k as int) == ranked.deep_view().map_values(key),
        decreases names@.len() - i,
    {
        let ghost before = ranked.deep_view();
        let ghost before_keys = keys@;
        proof {
            assert(all.take(i + 1).drop_last() =~= all.take(i as int));
            assert(all.take(i + 1).last() == names@[i as int]@);
        }
        let count = count_step(path, &names[i]) as i128;
        let at = find_slot(&keys, count);
        proof {
            assert(keys@.len() == ranked@.len()) by {
                assert(keys@.map_values(|k: i128| k as int).len() == ranked.deep_view().map_values(
                    key,
                ).len());
            }
        }
        ranked.insert(at, names[i].clone());
        keys.insert(at, count);
        proof {
            assert(ranked.deep_view() =~= before.insert(at as int, names@[i as int]@));
            assert(keys@.map_values(|k: i128| k as int) =~= before_keys.map_values(
                |k: i128| k as int,
            ).insert(at as int, count as int));
            assert(ranked.deep_view().map_values(key) =~= before.map_values(key).insert(
                at as int,
                key(names@[i as int]@),
            ));
        }
        i += 1;
    }
    proof {
        assert(all.take(all.len() as int) =~= all);
    }
    ranked
}

/// The votes of a parent with `score` among `len` parents.
pub fn votes(score: Score, len: usize) -> (res: usize)
    ensures
        res == votes_spec(score, len),
        res <= 100,
{
    if score <= 0 {
        0
    } else if len == 0 || score as u128 >= len as u128 {
        100
    } else {
        let scaled: u128 = 100 * (score as u128);
        let ratio: u128 = scaled / (len as u128);
        proof {
            assert(ratio <= 100) by (nonlinear_arith)
                requires
                    ratio == (100 * (score as int)) / (len as int),
                    0 < score < len,
            ;
        }
        ratio as usize
    }
}

impl DNA {
    /// What a parent with `path` and `score` hands down among `len`
    /// parents.
    pub fn new(path: Path, score: Score, len: usize) -> (res: Self)
        ensures
            res@ == (DnaView {
                path: path.deep_view(),
                favorite_steps: favorite_spec(path.deep_view()),
                votes: votes_spec(score, len),
            }),
    {
        let favorite_steps = build_favorite_steps(&path);
        let probability = votes(score, len);
        DNA { path, favorite_steps, probability }
    }

    /// The votes of this parent for the step at `index`: its preferred step
    /// among `available_steps`, once per vote.
    pub fn pick_steps(&self, index: usize, available_steps: &Vec<&Step>) -> (res: Vec<Step>)
        requires
            available_steps@.len() > 0,
        ensures
            res.deep_view() == pick_steps_spec(self@, index, available_steps.deep_view()),
    {
        let step = self.pick_step(index, available_steps);
        let mut res: Vec<Step> = Vec::new();
        let mut i: usize = 0;
        while i < self.probability
            invariant
                i <= self.probability,
                res@.len() == i,
                forall|k: int| 0 <= k < i ==> (#[trigger] res@[k])@ == step@,
            decreases self.probability - i,
        {
            res.push(step.clone());
            i += 1;
        }
        proof {
            assert(res.deep_view() =~= pick_steps_spec(self@, index, available_steps.deep_view()));
        }
        res
    }

    /// The step that this parent prefers at `index` among
    /// `available_steps`.
    pub fn pick_step(&self, index: usize, available_steps: &Vec<&Step>) -> (res: Step)
        requires
            available_steps@.len() > 0,
        ensures
            res@ == pick_step_spec(self@, index, available_steps.deep_view()),
    {
        if index < self.path.len() {
            let step = &self.path[index];
            if is_in_vec(step, available_steps) {
                return step.clone();
            }
        }
        self.best_available_step(available_steps)
    }

    /// The first favorite of this parent that is among `available_steps`;
    /// their first where none is.
    pub fn best_available_step(&self, available_steps: &Vec<&Step>) -> (res: Step)
        requires
            available_steps@.len() > 0,
        ensures
            res@ == best_available_spec(self@.favorite_steps, available_steps.deep_view()),
    {
        let ghost favorites = self.favorite_steps.deep_view();
        let mut i: usize = 0;
        proof {
            assert(favorites.skip(0) =~= favorites);
        }
        while i < self.favorite_steps.len()
            invariant
                i <= self.favorite_steps@.len(),
                favorites == self.favorite_steps.deep_view(),
                best_available_spec(favorites, available_steps.deep_view()) == best_available_spec(
                    favorites.skip(i as int),
                    available_steps.deep_view(),
                ),
            decreases self.favorite_steps@.len() - i,
        {
            proof {
                assert(favorites.skip(i as int)[0] == self.favorite_steps@[i as int]@);
                assert(favorites.skip(i as int).skip(1) =~= favorites.skip(i + 1));
            }
            if is_in_vec(&self.favorite_steps[i], available_steps) {
                return self.favorite_steps[i].clone();
            }
            i += 1;
        }
        available_steps[0].clone()
    }
}

/// The inheritance of every parent of a selection.
pub fn build_dnas(parents: Vec<(Score, Path)>) -> (res: Vec<DNA>)
    ensures
        res@.len() == parents@.len(),
        forall|k: int|
            0 <= k < parents@.len() ==> (#[trigger] res@[k])@ == (DnaView {
                path: parents@[k].1.deep_view(),
                favorite_steps: favorite_spec(parents@[k].1.deep_view()),
                votes: votes_spec(parents@[k].0, parents@.len() as usize),
            }),
{
    let len = parents.len();
    let mut res: Vec<DNA> = Vec::new();
    let mut i: usize = 0;
    while i < parents.len()
        invariant
            i <= parents@.len(),
            len == parents@.len(),
            res@.len() == i,
            forall|k: int|
                0 <= k < i ==> (#[trigger] res@[k])@ == (DnaView {
                    path: parents@[k].1.deep_view(),
                    favorite_steps: favorite_spec(parents@[k].1.deep_view()),
                    votes: votes_spec(parents@[k].0, len),
                }),
        decreases parents@.len() - i,
    {
        res.push(DNA::new(crate::ast::clone_names(&parents[i].1), parents[i].0, len));
        i += 1;
    }
    res
}

/// The step that a parent prefers is one of the available steps.
pub proof fn lemma_pick_is_available(dna: DnaView, index: usize, available: Seq<Seq<char>>)
    requires
        available.len() > 0,
    ensures
        available.contains(pick_step_spec(dna, index, available)),
{
    lemma_best_is_available(dna.favorite_steps, available);
}

/// The best available step is one of the available steps.
pub proof fn lemma_best_is_available(favorites: Seq<Seq<char>>, available: Seq<Seq<char>>)
    requires
        available.len() > 0,
    ensures
        available.contains(best_available_spec(favorites, available)),
    decreases favorites.len(),
{
    if favorites.len() == 0 {
        assert(available[0] == best_available_spec(favorites, available));
    } else if !available.contains(favorites[0]) {
        lemma_best_is_available(favorites.skip(1), available);
    }
}

/// The votes of all parents for the step at `index`, parent after parent.
pub open spec fn choices_spec(dnas: Seq<DnaView>, index: usize, available: Seq<Seq<char>>) -> Seq<
    Seq<char>,
>
    decreases dnas.len(),
{
    if dnas.len() == 0 {
        Seq::empty()
    } else {
        choices_spec(dnas.drop_last(), index, available) + pick_steps_spec(
            dnas.last(),
            index,
            available,
        )
    }
}

/// Every vote is for an available step.
pub proof fn lemma_choices_are_available(dnas: Seq<DnaView>, index: usize, available: Seq<Seq<char>>)
    requires
        available.len() > 0,
    ensures
        forall|k: int|
            0 <= k < choices_spec(dnas, index, available).len() ==> available.contains(
                #[trigger] choices_spec(dnas, index, available)[k],
            ),
    decreases dnas.len(),
{
    if dnas.len() > 0 {
        lemma_choices_are_available(dnas.drop_last(), index, available);
        lemma_pick_is_available(dnas.last(), index, available);
        let before = choices_spec(dnas.drop_last(), index, available);
        let all = choices_spec(dnas, index, available);
        assert forall|k: int| 0 <= k < all.len() implies available.contains(#[trigger] all[k]) by {
            if k < before.len() {
                assert(all[k] == before[k]);
            } else {
                assert(all[k] == pick_steps_spec(dnas.last(), index, available)[k - before.len()]);
            }
        }
    }
}

} // verus!
