//! An estimate of what a node of the best-first search is worth.

use vstd::prelude::*;
use crate::ast::{Resource, ResourceView, Simulation};
use crate::node::{absent_from, Node, Running, RunningView};

verus! {

/// `value`, once for every one of `targets` that is `name`.
pub open spec fn target_value(targets: Seq<Seq<char>>, name: Seq<char>, value: nat) -> nat
    decreases targets.len(),
{
    if targets.len() == 0 {
        0
    } else {
        let last: nat = if targets.last() == name {
            value
        } else {
            0
        };
        target_value(targets.drop_last(), name, value) + last
    }
}

/// What `outputs` give towards `targets`: the quantity of every output,
/// once for every target of its name.
pub open spec fn gain_spec(outputs: Seq<ResourceView>, targets: Seq<Seq<char>>) -> nat
    decreases outputs.len(),
{
    if outputs.len() == 0 {
        0
    } else {
        gain_spec(outputs.drop_last(), targets) + target_value(
            targets,
            outputs.last().name,
            outputs.last().quantity,
        )
    }
}

/// What the processes of `started` are worth together: for each, what it
/// gives towards `targets`, and the time at which it ends.
pub open spec fn worth_spec(started: Seq<RunningView>, targets: Seq<Seq<char>>) -> nat
    decreases started.len(),
{
    if started.len() == 0 {
        0
    } else {
        worth_spec(started.drop_last(), targets) + gain_spec(started.last().0.output, targets)
            + started.last().1 as nat
    }
}

/// `value` as a score, where it is one.
pub open spec fn as_score(value: nat) -> Option<i64> {
    if value > i64::MAX {
        None
    } else {
        Some(value as i64)
    }
}

/// The value over a part of the targets is within the value over all.
pub proof fn lemma_target_value_grows(targets: Seq<Seq<char>>, name: Seq<char>, value: nat, n: int)
    requires
        0 <= n <= targets.len(),
    ensures
        target_value(targets.take(n), name, value) <= target_value(targets, name, value),
    decreases targets.len() - n,
{
    if n == targets.len() {
        assert(targets.take(n) =~= targets);
    } else {
        assert(targets.take(n + 1).drop_last() =~= targets.take(n));
        lemma_target_value_grows(targets, name, value, n + 1);
    }
}

/// The gain of a part of the outputs is within the gain of all.
pub proof fn lemma_gain_grows(outputs: Seq<ResourceView>, targets: Seq<Seq<char>>, n: int)
    requires
        0 <= n <= outputs.len(),
    ensures
        gain_spec(outputs.take(n), targets) <= gain_spec(outputs, targets),
    decreases outputs.len() - n,
{
    if n == outputs.len() {
        assert(outputs.take(n) =~= outputs);
    } else {
        assert(outputs.take(n + 1).drop_last() =~= outputs.take(n));
        lemma_gain_grows(outputs, targets, n + 1);
    }
}

/// The worth of a part of the processes is within the worth of all.
pub proof fn lemma_worth_grows(started: Seq<RunningView>, targets: Seq<Seq<char>>, n: int)
    requires
        0 <= n <= started.len(),
    ensures
        worth_spec(started.take(n), targets) <= worth_spec(started, targets),
    decreases started.len() - n,
{
    if n == started.len() {
        assert(started.take(n) =~= started);
    } else {
        assert(started.take(n + 1).drop_last() =~= started.take(n));
        lemma_worth_grows(started, targets, n + 1);
    }
}

/// `value`, once for every one of `targets` that is `name`; `None` above
/// `i64::MAX`.
pub fn value_for_targets(targets: &Vec<String>, name: &String, value: usize) -> (res: Option<i64>)
    ensures
        res == as_score(target_value(targets.deep_view(), name@, value as nat)),
{
    let ghost all = targets.deep_view();
    let mut total: i64 = 0;
    let mut i: usize = 0;
    while i < targets.len()
        invariant
            i <= targets@.len(),
            all == targets.deep_view(),
            0 <= total,
            total == target_value(all.take(i as int), name@, value as nat),
        decreases targets@.len() - i,
    {
        proof {
            assert(all.take(i + 1).drop_last() =~= all.take(i as int));
            assert(all.take(i + 1).last() == targets@[i as int]@);
        }
        if targets[i] == *name {
            if value as u128 > (i64::MAX - total) as u128 {
                proof {
                    lemma_target_value_grows(all, name@, value as nat, i + 1);
                }
                return None;
            }
            total = total + value as i64;
        }
        i += 1;
    }
    proof {
        assert(all.take(all.len() as int) =~= all);
    }
    Some(total)
}

/// What `outputs` give towards `targets`; `None` above `i64::MAX`.
pub fn gain(outputs: &Vec<Resource>, targets: &Vec<String>) -> (res: Option<i64>)
    ensures
        res == as_score(gain_spec(outputs.deep_view(), targets.deep_view())),
{
    let ghost all = outputs.deep_view();
    let mut total: i64 = 0;
    let mut i: usize = 0;
    while i < outputs.len()
        invariant
            i <= outputs@.len(),
            all == outputs.deep_view(),
            0 <= total,
            total == gain_spec(all.take(i as int), targets.deep_view()),
        decreases outputs@.len() - i,
    {
        proof {
            assert(all.take(i + 1).drop_last() =~= all.take(i as int));
            assert(all.take(i + 1).last() == outputs@[i as int]@);
            lemma_gain_grows(all, targets.deep_view(), i + 1);
        }
        match value_for_targets(targets, &outputs[i].name, outputs[i].quantity) {
            None => {
                return None;
            },
            Some(value) => {
                if value > i64::MAX - total {
                    return None;
                }
                total = total + value;
            },
        }
        i += 1;
    }
    proof {
        assert(all.take(all.len() as int) =~= all);
    }
    Some(total)
}

/// What the processes of `started` are worth together; `None` above
/// `i64::MAX`.
pub fn worth(started: &Vec<Running>, targets: &Vec<String>) -> (res: Option<i64>)
    ensures
        res == as_score(worth_spec(started.deep_view(), targets.deep_view())),
{
    let ghost all = started.deep_view();
    let mut total: i64 = 0;
    let mut i: usize = 0;
    while i < started.len()
        invariant
            i <= started@.len(),
            all == started.deep_view(),
            0 <= total,
            total == worth_spec(all.take(i as int), targets.deep_view()),
        decreases started@.len() - i,
    {
        proof {
            assert(all.take(i + 1).drop_last() =~= all.take(i as int));
            assert(all.take(i + 1).last() == started@[i as int].deep_view());
            lemma_worth_grows(all, targets.deep_view(), i + 1);
        }
        match gain(&started[i].0.output, targets) {
            None => {
                return None;
            },
            Some(value) => {
                if value > i64::MAX - total {
                    return None;
                }
                let with_gain = total + value;
                if started[i].1 as u128 > (i64::MAX - with_gain) as u128 {
                    return None;
                }
                total = with_gain + started[i].1 as i64;
            },
        }
        i += 1;
    }
    proof {
        assert(all.take(all.len() as int) =~= all);
    }
    Some(total)
}

/// The estimate of `node` on the catalog `sim`: for every process that the
/// node starts, what it gives towards the targets and the time at which it
/// ends, added up. `None` where the sum is above `i64::MAX`.
pub fn time_based_heuristic(sim: &Simulation, node: &Node) -> (res: Option<i64>)
    ensures
        res == as_score(
            worth_spec(
                absent_from(node.output.deep_view(), node.input.deep_view()),
                sim@.optimize,
            ),
        ),
{
    let started = node.get_transversal_processes();
    worth(&started, &sim.optimize)
}

} // verus!
