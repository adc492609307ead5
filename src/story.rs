//! The story's rooms and actions, and the inventory rules that decide which
//! actions a player is offered.
use vstd::prelude::*;

verus! {

/// Items an action needs the player to hold (`on`) or not to hold (`not`).
#[derive(Debug, Clone)]
pub struct ActionDependencies {
    pub not: Vec<String>,
    pub on: Vec<String>,
}

/// A choice offered in a room.
#[derive(Debug, Clone)]
pub struct Action {
    pub name: String,
    pub yields: Vec<String>,
    pub text: String,
    pub depends: ActionDependencies,
    pub transition: Option<String>,
    pub music: Option<String>,
}

/// A room: its description and the actions offered in it.
#[derive(Debug, Clone)]
pub struct Room {
    pub description: String,
    pub actions: Vec<Action>,
}

impl Default for ActionDependencies {
    fn default() -> (r: ActionDependencies)
        ensures
            r.not@.len() == 0 && r.on@.len() == 0,
    {
        ActionDependencies { not: Vec::new(), on: Vec::new() }
    }
}

impl Default for Action {
    fn default() -> (r: Action)
        ensures
            r.name@.len() == 0 && r.text@.len() == 0 && r.yields@.len() == 0,
            r.depends.not@.len() == 0 && r.depends.on@.len() == 0,
            r.transition is None && r.music is None,
    {
        Action {
            name: String::new(),
            yields: Vec::new(),
            text: String::new(),
            depends: ActionDependencies { not: Vec::new(), on: Vec::new() },
            transition: None,
            music: None,
        }
    }
}

/// Whether the inventory holds an item of this name.
pub open spec fn holds(inventory: Seq<String>, item: Seq<char>) -> bool {
    exists|k: int| 0 <= k < inventory.len() && (#[trigger] inventory[k])@ == item
}

/// An action is offered when every item it depends on is held and none of
/// the items it excludes is.
pub open spec fn available(deps: ActionDependencies, inventory: Seq<String>) -> bool {
    &&& forall|i: int| 0 <= i < deps.on@.len() ==> holds(inventory, (#[trigger] deps.on@[i])@)
    &&& forall|i: int| 0 <= i < deps.not@.len() ==> !holds(inventory, (#[trigger] deps.not@[i])@)
}

/// Whether the inventory holds the item.
pub fn has_item(inventory: &Vec<String>, item: &String) -> (r: bool)
    ensures
        r == holds(inventory@, item@),
{
    let mut k: usize = 0;
    while k < inventory.len()
        invariant
            0 <= k <= inventory.len(),
            forall|j: int| 0 <= j < k ==> (#[trigger] inventory@[j])@ != item@,
        decreases inventory.len() - k,
    {
        if inventory[k] == *item {
            return true;
        }
        k = k + 1;
    }
    false
}

/// Whether an action with these dependencies is offered to a player with
/// this inventory.
pub fn action_available(deps: &ActionDependencies, inventory: &Vec<String>) -> (r: bool)
    ensures
        r == available(*deps, inventory@),
{
    let mut i: usize = 0;
    while i < deps.on.len()
        invariant
            0 <= i <= deps.on.len(),
            forall|j: int| 0 <= j < i ==> holds(inventory@, (#[trigger] deps.on@[j])@),
        decreases deps.on.len() - i,
    {
        if !has_item(inventory, &deps.on[i]) {
            return false;
        }
        i = i + 1;
    }
    let mut i: usize = 0;
    while i < deps.not.len()
        invariant
            0 <= i <= deps.not.len(),
            forall|j: int| 0 <= j < deps.on@.len() ==> holds(inventory@, (#[trigger] deps.on@[j])@),
            forall|j: int| 0 <= j < i ==> !holds(inventory@, (#[trigger] deps.not@[j])@),
        decreases deps.not.len() - i,
    {
        if has_item(inventory, &deps.not[i]) {
            return false;
        }
        i = i + 1;
    }
    true
}

/// No item appears twice in the inventory.
pub open spec fn distinct_items(inventory: Seq<String>) -> bool {
    forall|j: int, k: int| 0 <= j < k < inventory.len() ==> inventory[j]@ != inventory[k]@
}

/// Gives the player every item an action yields; items already held are not
/// added twice, and what was held stays where it was.
pub fn gain_items(inventory: &mut Vec<String>, yields: &Vec<String>)
    ensures
        forall|item: Seq<char>| #[trigger] holds(final(inventory)@, item) <==> holds(
            old(inventory)@,
            item,
        ) || holds(yields@, item),
        old(inventory)@ == final(inventory)@.take(old(inventory)@.len() as int),
        distinct_items(old(inventory)@) ==> distinct_items(final(inventory)@),
{
    let mut i: usize = 0;
    while i < yields.len()
        invariant
            0 <= i <= yields.len(),
            forall|item: Seq<char>| #[trigger] holds(inventory@, item) <==> holds(
                old(inventory)@,
                item,
            ) || holds(yields@.take(i as int), item),
            old(inventory)@.len() <= inventory@.len(),
            old(inventory)@ == inventory@.take(old(inventory)@.len() as int),
            distinct_items(old(inventory)@) ==> distinct_items(inventory@),
        decreases yields.len() - i,
    {
        let ghost before = inventory@;
        if !has_item(inventory, &yields[i]) {
            inventory.push(yields[i].clone());
            proof {
                assert(old(inventory)@ =~= inventory@.take(old(inventory)@.len() as int));
                if distinct_items(old(inventory)@) {
                    assert forall|j: int, k: int| 0 <= j < k < inventory@.len() implies inventory@[j]@
                        != inventory@[k]@ by {
                        if k == before.len() {
                            assert(inventory@[j] == before[j]);
                        } else {
                            assert(inventory@[j] == before[j] && inventory@[k] == before[k]);
                        }
                    }
                }
            }
        }
        proof {
            let t = yields@.take(i + 1);
            assert forall|item: Seq<char>| #[trigger] holds(inventory@, item) <==> holds(before, item)
                || item == yields@[i as int]@ by {
                if holds(inventory@, item) {
                    let k = choose|k: int| 0 <= k < inventory@.len() && (#[trigger] inventory@[k])@ == item;
                    if k < before.len() {
                        assert(before[k] == inventory@[k]);
                    }
                }
                if holds(before, item) {
                    let k = choose|k: int| 0 <= k < before.len() && (#[trigger] before[k])@ == item;
                    assert(inventory@[k] == before[k]);
                }
                if item == yields@[i as int]@ && !holds(before, item) {
                    assert(inventory@[before.len() as int]@ == item);
                }
            }
            assert forall|item: Seq<char>| #[trigger] holds(t, item) <==> holds(yields@.take(i as int), item)
                || item == yields@[i as int]@ by {
                if holds(t, item) {
                    let k = choose|k: int| 0 <= k < t.len() && (#[trigger] t[k])@ == item;
                    if k < i {
                        assert(yields@.take(i as int)[k] == t[k]);
                    }
                }
                if holds(yields@.take(i as int), item) {
                    let k = choose|k: int| 0 <= k < i && (#[trigger] yields@.take(i as int)[k])@ == item;
                    assert(t[k] == yields@.take(i as int)[k]);
                }
                if item == yields@[i as int]@ {
                    assert(t[i as int] == yields@[i as int]);
                }
            }
        }
        i = i + 1;
    }
    assert(yields@.take(i as int) =~= yields@);
}

} // verus!
