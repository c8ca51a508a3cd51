//! The stock: a finite map from resource names to quantities.

use vstd::prelude::*;
use crate::ast::{clone_resources, Resource, ResourceView};

verus! {

/// A stock as a mathematical value.
pub type Stock = Map<Seq<char>, nat>;

/// The names of `entries` are pairwise different.
pub open spec fn distinct_names(entries: Seq<ResourceView>) -> bool {
    forall|i: int, j: int|
        0 <= i < j < entries.len() ==> (#[trigger] entries[i]).name != (#[trigger] entries[j]).name
}

/// Some entry of `entries` carries `name`.
pub open spec fn has_name(entries: Seq<ResourceView>, name: Seq<char>) -> bool {
    exists|i: int| 0 <= i < entries.len() && (#[trigger] entries[i]).name == name
}

/// The position of an entry of `entries` that carries `name`.
pub open spec fn position_of(entries: Seq<ResourceView>, name: Seq<char>) -> int {
    choose|i: int| 0 <= i < entries.len() && (#[trigger] entries[i]).name == name
}

/// The map that a list of entries stands for.
pub open spec fn entries_map(entries: Seq<ResourceView>) -> Map<Seq<char>, nat> {
    Map::new(
        |name: Seq<char>| has_name(entries, name),
        |name: Seq<char>| entries[position_of(entries, name)].quantity,
    )
}

/// Quantities of named resources. A name that the stock does not hold has no
/// entry; no name occurs twice.
#[derive(Debug)]
pub struct Inventory {
    entries: Vec<Resource>,
}

impl View for Inventory {
    type V = Map<Seq<char>, nat>;

    closed spec fn view(&self) -> Map<Seq<char>, nat> {
        entries_map(self.entries.deep_view())
    }
}

impl DeepView for Inventory {
    type V = Map<Seq<char>, nat>;

    open spec fn deep_view(&self) -> Map<Seq<char>, nat> {
        self@
    }
}

impl Inventory {
    #[verifier::type_invariant]
    spec fn well_formed(self) -> bool {
        distinct_names(self.entries.deep_view())
    }

    /// The empty stock.
    pub fn new() -> (res: Self)
        ensures
            res@ == Map::<Seq<char>, nat>::empty(),
    {
        let res = Inventory { entries: Vec::new() };
        assert(res@ =~= Map::<Seq<char>, nat>::empty());
        res
    }

    /// Where `name` stands among the entries, if it does.
    fn find(&self, name: &String) -> (res: Option<usize>)
        ensures
            match res {
                Some(i) => i < self.entries@.len() && self.entries.deep_view()[i as int].name == name@,
                None => !has_name(self.entries.deep_view(), name@),
            },
    {
        let mut i: usize = 0;
        while i < self.entries.len()
            invariant
                i <= self.entries@.len(),
                forall|k: int| 0 <= k < i ==> (#[trigger] self.entries.deep_view()[k]).name != name@,
            decreases self.entries@.len() - i,
        {
            if self.entries[i].name == *name {
                return Some(i);
            }
            i += 1;
        }
        None
    }

    /// The quantity held under `name`, if the stock has an entry for it.
    pub fn get(&self, name: &String) -> (res: Option<usize>)
        ensures
            res == (if self@.dom().contains(name@) {
                Some(self@[name@] as usize)
            } else {
                None
            }),
            self@.dom().contains(name@) ==> self@[name@] <= usize::MAX,
    {
        proof {
            use_type_invariant(self);
        }
        match self.find(name) {
            Some(i) => {
                proof {
                    lemma_entry_value(self.entries.deep_view(), i as int);
                }
                Some(self.entries[i].quantity)
            },
            None => None,
        }
    }

    /// Sets the quantity held under `name`, adding the entry if it is new.
    pub fn insert(&mut self, name: String, quantity: usize)
        ensures
            final(self)@ == old(self)@.insert(name@, quantity as nat),
    {
        proof {
            use_type_invariant(&*self);
        }
        let ghost before = self.entries.deep_view();
        let found = self.find(&name);
        let mut entries: Vec<Resource> = Vec::new();
        core::mem::swap(&mut self.entries, &mut entries);
        match found {
            Some(i) => {
                entries[i] = Resource { name, quantity };
                proof {
                    let after = entries.deep_view();
                    assert(after.len() == before.len());
                    assert(forall|k: int| 0 <= k < before.len() && k != i ==> after[k] == before[k]);
                    assert(after[i as int].name == before[i as int].name);
                    assert(distinct_names(after));
                    lemma_map_after_update(before, entries.deep_view(), i as int);
                }
            },
            None => {
                entries.push(Resource { name, quantity });
                proof {
                    let after = entries.deep_view();
                    assert(after.len() == before.len() + 1);
                    assert(forall|k: int| 0 <= k < before.len() ==> after[k] == before[k]);
                    assert(forall|k: int| 0 <= k < before.len() ==> (#[trigger] before[k]).name != after.last().name);
                    assert(distinct_names(after));
                    lemma_map_after_push(before, entries.deep_view());
                }
            },
        }
        self.entries = entries;
    }
}

impl Inventory {
    /// Whether every entry of `self` stands in `other` with the same quantity.
    fn included_in(&self, other: &Self) -> (res: bool)
        ensures
            res == self@.submap_of(other@),
    {
        proof {
            use_type_invariant(self);
        }
        let mut i: usize = 0;
        while i < self.entries.len()
            invariant
                i <= self.entries@.len(),
                distinct_names(self.entries.deep_view()),
                forall|k: int|
                    0 <= k < i ==> {
                        let entry = #[trigger] self.entries.deep_view()[k];
                        other@.dom().contains(entry.name) && other@[entry.name] == entry.quantity
                    },
            decreases self.entries@.len() - i,
        {
            proof {
                lemma_entry_value(self.entries.deep_view(), i as int);
            }
            match other.get(&self.entries[i].name) {
                Some(quantity) => {
                    if quantity != self.entries[i].quantity {
                        return false;
                    }
                },
                None => {
                    return false;
                },
            }
            i += 1;
        }
        proof {
            assert forall|name: Seq<char>| self@.dom().contains(name) implies other@.dom().contains(
                name,
            ) && self@[name] == other@[name] by {
                let p = position_of(self.entries.deep_view(), name);
                lemma_entry_value(self.entries.deep_view(), p);
            }
        }
        true
    }
}

impl PartialEq for Inventory {
    /// Two stocks are equal when they hold the same names with the same
    /// quantities, in whatever order.
    fn eq(&self, other: &Self) -> (res: bool) {
        let res = self.included_in(other) && other.included_in(self);
        proof {
            if res {
                assert(self@ =~= other@);
            }
        }
        res
    }
}

impl vstd::std_specs::cmp::PartialEqSpecImpl for Inventory {
    open spec fn obeys_eq_spec() -> bool {
        true
    }

    open spec fn eq_spec(&self, other: &Self) -> bool {
        self@ == other@
    }
}

impl Eq for Inventory {

}

impl Clone for Inventory {
    fn clone(&self) -> (res: Self)
        ensures
            res@ == self@,
    {
        proof {
            use_type_invariant(self);
        }
        let entries = clone_resources(&self.entries);
        Inventory { entries }
    }
}

/// With distinct names, the entry at `i` gives the value of its name.
proof fn lemma_entry_value(entries: Seq<ResourceView>, i: int)
    requires
        distinct_names(entries),
        0 <= i < entries.len(),
    ensures
        entries_map(entries).dom().contains(entries[i].name),
        entries_map(entries)[entries[i].name] == entries[i].quantity,
{
    let name = entries[i].name;
    assert(has_name(entries, name));
    let p = position_of(entries, name);
    assert(p == i) by {
        if p < i {
            assert(entries[p].name != entries[i].name);
        } else if i < p {
            assert(entries[i].name != entries[p].name);
        }
    }
}

/// Replacing the entry at `i` by one of the same name sets the value of
/// that name in the map.
proof fn lemma_map_after_update(before: Seq<ResourceView>, after: Seq<ResourceView>, i: int)
    requires
        distinct_names(before),
        distinct_names(after),
        0 <= i < before.len(),
        after.len() == before.len(),
        after[i].name == before[i].name,
        forall|k: int| 0 <= k < before.len() && k != i ==> after[k] == before[k],
    ensures
        entries_map(after) == entries_map(before).insert(after[i].name, after[i].quantity),
{
    let target = entries_map(before).insert(after[i].name, after[i].quantity);
    assert forall|name: Seq<char>| entries_map(after).dom().contains(name) implies target.dom().contains(name) by {
        let p = position_of(after, name);
        assert(before[p].name == name);
        assert(has_name(before, name));
    }
    assert forall|name: Seq<char>| target.dom().contains(name) implies entries_map(after).dom().contains(name) by {
        if name == after[i].name {
            assert(has_name(after, name));
        } else {
            let p = position_of(before, name);
            assert(after[p].name == name);
            assert(has_name(after, name));
        }
    }
    assert forall|name: Seq<char>| entries_map(after).dom().contains(name) implies entries_map(after)[name] == target[name] by {
        let p = position_of(after, name);
        lemma_entry_value(after, p);
        if p != i {
            lemma_entry_value(before, p);
        }
    }
    assert(entries_map(after) =~= target);
}

/// Appending an entry of a new name adds that name to the map.
proof fn lemma_map_after_push(before: Seq<ResourceView>, after: Seq<ResourceView>)
    requires
        distinct_names(before),
        distinct_names(after),
        after.len() == before.len() + 1,
        forall|k: int| 0 <= k < before.len() ==> after[k] == before[k],
    ensures
        entries_map(after) == entries_map(before).insert(after.last().name, after.last().quantity),
{
    let last = after.last();
    let target = entries_map(before).insert(last.name, last.quantity);
    assert forall|name: Seq<char>| entries_map(after).dom().contains(name) implies target.dom().contains(name) by {
        let p = position_of(after, name);
        if p < before.len() {
            assert(before[p].name == name);
            assert(has_name(before, name));
        }
    }
    assert forall|name: Seq<char>| target.dom().contains(name) implies entries_map(after).dom().contains(name) by {
        if name == last.name {
            assert(after[after.len() - 1].name == name);
            assert(has_name(after, name));
        } else {
            let p = position_of(before, name);
            assert(after[p].name == name);
            assert(has_name(after, name));
        }
    }
    assert forall|name: Seq<char>| entries_map(after).dom().contains(name) implies entries_map(after)[name] == target[name] by {
        let p = position_of(after, name);
        lemma_entry_value(after, p);
        if p < before.len() {
            lemma_entry_value(before, p);
        }
    }
    assert(entries_map(after) =~= target);
}

impl Inventory {
    /// Whether the stock has no entry.
    pub fn is_empty(&self) -> (res: bool)
        ensures
            res == (self@ == Map::<Seq<char>, nat>::empty()),
    {
        proof {
            use_type_invariant(self);
            if self.entries@.len() > 0 {
                lemma_entry_value(self.entries.deep_view(), 0);
            } else {
                assert(self@ =~= Map::<Seq<char>, nat>::empty());
            }
        }
        self.entries.len() == 0
    }

    /// The entries, in the order in which their names first came in: every
    /// name of the stock once, with its quantity.
    pub fn entries(&self) -> (res: Vec<Resource>)
        ensures
            distinct_names(res.deep_view()),
            entries_map(res.deep_view()) == self@,
    {
        proof {
            use_type_invariant(self);
        }
        clone_resources(&self.entries)
    }
}

/// The stock that a list of pairs stands for: a later pair replaces an
/// earlier one of the same name.
pub open spec fn convert_spec(pairs: Seq<(Seq<char>, usize)>) -> Stock
    decreases pairs.len(),
{
    if pairs.len() == 0 {
        Map::empty()
    } else {
        convert_spec(pairs.drop_last()).insert(pairs.last().0, pairs.last().1 as nat)
    }
}

/// Makes a stock from a list of names with quantities. Of two pairs with one
/// name the later counts.
pub fn convert(input: Vec<(String, usize)>) -> (res: Inventory)
    ensures
        res@ == convert_spec(input.deep_view()),
{
    let mut res = Inventory::new();
    let ghost pairs = input.deep_view();
    let mut i: usize = 0;
    proof {
        assert(pairs.take(0) =~= Seq::<(Seq<char>, usize)>::empty());
    }
    while i < input.len()
        invariant
            i <= input@.len(),
            pairs == input.deep_view(),
            res@ == convert_spec(pairs.take(i as int)),
        decreases input@.len() - i,
    {
        proof {
            assert(pairs.take(i + 1).drop_last() =~= pairs.take(i as int));
            assert(pairs.take(i + 1).last() == pairs[i as int]);
        }
        res.insert(input[i].0.clone(), input[i].1);
        i += 1;
    }
    proof {
        assert(pairs.take(pairs.len() as int) =~= pairs);
    }
    res
}

/// What `stock` holds under `name`; nothing where it has no entry.
pub open spec fn held(stock: Stock, name: Seq<char>) -> nat {
    if stock.dom().contains(name) {
        stock[name]
    } else {
        0
    }
}

/// The entries of `left`, each raised by what `right` holds under its name.
pub open spec fn inventory_add_spec(left: Stock, right: Stock) -> Stock {
    Map::new(|name: Seq<char>| left.dom().contains(name), |name: Seq<char>| left[name] + held(right, name))
}

/// Every sum of [`inventory_add_spec`] is within `usize`.
pub open spec fn sums_fit(left: Stock, right: Stock) -> bool {
    forall|name: Seq<char>| left.dom().contains(name) ==> left[name] + held(right, name) <= usize::MAX
}

/// Adds to every entry of `left` what `right` holds under the same name.
/// Names that only `right` holds do not come over. `None` where a sum
/// leaves `usize`.
pub fn inventory_add(left: &Inventory, right: &Inventory) -> (res: Option<Inventory>)
    ensures
        match res {
            Some(sum) => sums_fit(left@, right@) && sum@ == inventory_add_spec(left@, right@),
            None => !sums_fit(left@, right@),
        },
{
    proof {
        use_type_invariant(left);
    }
    let mut entries: Vec<Resource> = Vec::new();
    let mut i: usize = 0;
    while i < left.entries.len()
        invariant
            i <= left.entries@.len(),
            distinct_names(left.entries.deep_view()),
            entries@.len() == i,
            forall|k: int|
                0 <= k < i ==> {
                    let entry = (#[trigger] entries@[k])@;
                    let source = left.entries@[k]@;
                    entry.name == source.name && entry.quantity == source.quantity + held(
                        right@,
                        source.name,
                    )
                },
        decreases left.entries@.len() - i,
    {
        let entry = &left.entries[i];
        let extra = match right.get(&entry.name) {
            Some(quantity) => quantity,
            None => 0,
        };
        proof {
            lemma_entry_value(left.entries.deep_view(), i as int);
        }
        if extra > usize::MAX - entry.quantity {
            return None;
        }
        entries.push(Resource { name: entry.name.clone(), quantity: entry.quantity + extra });
        i += 1;
    }
    proof {
        let source = left.entries.deep_view();
        let made = entries.deep_view();
        assert forall|k: int| 0 <= k < made.len() implies (#[trigger] made[k]).name
            == source[k].name && made[k].quantity == source[k].quantity + held(
            right@,
            source[k].name,
        ) by {
            assert(made[k] == entries@[k]@);
        }
        assert(distinct_names(made));
        let target = inventory_add_spec(left@, right@);
        assert forall|name: Seq<char>| left@.dom().contains(name) implies left@[name] + held(
            right@,
            name,
        ) <= usize::MAX by {
            let p = position_of(source, name);
            lemma_entry_value(source, p);
            assert(made[p].name == name);
        }
        assert forall|name: Seq<char>| entries_map(made).dom().contains(name)
            == target.dom().contains(name) by {
            if left@.dom().contains(name) {
                let p = position_of(source, name);
                lemma_entry_value(source, p);
                assert(made[p].name == name);
                lemma_entry_value(made, p);
            }
            if entries_map(made).dom().contains(name) {
                let p = position_of(made, name);
                assert(source[p].name == name);
                lemma_entry_value(source, p);
            }
        }
        assert(entries_map(made).dom() =~= target.dom());
        assert forall|name: Seq<char>| target.dom().contains(name) implies entries_map(made)[name]
            == target[name] by {
            let p = position_of(source, name);
            lemma_entry_value(source, p);
            assert(made[p].name == name);
            lemma_entry_value(made, p);
        }
        assert(entries_map(made) =~= target);
    }
    Some(Inventory { entries })
}

/// Whether `right` holds at least what `left` holds, name by name.
pub fn inventory_compare(left: &Inventory, right: &Inventory) -> (res: bool)
    ensures
        res == forall|name: Seq<char>|
            left@.dom().contains(name) ==> right@.dom().contains(name) && right@[name]
                >= left@[name],
{
    proof {
        use_type_invariant(left);
    }
    let mut i: usize = 0;
    while i < left.entries.len()
        invariant
            i <= left.entries@.len(),
            distinct_names(left.entries.deep_view()),
            forall|k: int|
                0 <= k < i ==> {
                    let entry = #[trigger] left.entries.deep_view()[k];
                    right@.dom().contains(entry.name) && right@[entry.name] >= entry.quantity
                },
        decreases left.entries@.len() - i,
    {
        proof {
            lemma_entry_value(left.entries.deep_view(), i as int);
        }
        match right.get(&left.entries[i].name) {
            Some(quantity) => {
                if quantity < left.entries[i].quantity {
                    return false;
                }
            },
            None => {
                return false;
            },
        }
        i += 1;
    }
    proof {
        assert forall|name: Seq<char>| left@.dom().contains(name) implies right@.dom().contains(
            name,
        ) && right@[name] >= left@[name] by {
            let p = position_of(left.entries.deep_view(), name);
            lemma_entry_value(left.entries.deep_view(), p);
        }
    }
    true
}

} // verus!
