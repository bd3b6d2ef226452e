use vstd::prelude::*;

verus! {

use crate::error::PlanError;
use crate::item_list::{ItemList, QUANTITY_MAX};
use crate::wish_list::{WishList, demand, wish_supplies};

/// The view of the monsters to hunt for what the wish list still needs.
pub struct MonstersTab {}

impl MonstersTab {
    pub fn new() -> (r: MonstersTab) {
        MonstersTab {}
    }

    /// The monsters to show: those that drop a base ingredient the resolved
    /// wishes still need beyond `inventory`, each once; with `area`, only
    /// those that live there.
    pub fn monsters_to_show(&self, wishes: &WishList, inventory: &ItemList, area: Option<i32>) -> (r: Result<Vec<i32>, PlanError>)
        requires
            wishes.wf(),
            inventory.wf(),
        ensures
            r is Ok <==> forall|x: i32| #[trigger] demand(wishes.statuses(), wishes.wishes(), wishes.statuses().len() as int, x) <= QUANTITY_MAX,
            r matches Err(e) ==> e == PlanError::QuantityOverflow,
            r matches Ok(ms) ==> ms@.no_duplicates() && exists|needed: ItemList| {
                &&& #[trigger] needed.wf()
                &&& forall|x: i32| #[trigger] needed.count(x) == if demand(wishes.statuses(), wishes.wishes(), wishes.statuses().len() as int, x) > inventory.count(x) {
                    demand(wishes.statuses(), wishes.wishes(), wishes.statuses().len() as int, x) - inventory.count(x)
                } else {
                    0
                }
                &&& forall|m: i32| #[trigger] ms@.contains(m) <==> exists|i: int| 0 <= i < wishes.statuses().len() && #[trigger] wish_supplies(wishes.statuses()[i], needed, m, area)
            },
    {
        wishes.needed_monsters(inventory, area)
    }
}

} // verus!
