use vstd::prelude::*;

verus! {

use crate::error::PlanError;
use crate::item_list::{ItemList, QUANTITY_MAX, count_in, lemma_count_absent, lemma_count_at};
use crate::models::{Drop, Item, Monster, MonsterSubArea, Recipe, SubArea};
use crate::recipes::{
    base_upto, expands_within, fits, flow, is_depth, lemma_base_monotone, lemma_flow_monotone,
    lemma_empty_stays, lemma_first_level, lemma_need_nonneg, level, level_empty, need, overflows_at, recipe_has, rows_positive,
    step_count,
};

/// `q` units of `item`, nothing else.
pub open spec fn unit(item: i32, q: int) -> spec_fn(i32) -> int {
    |y: i32| if y == item { q } else { 0 }
}

/// Quantity of `x` that `q` crafts of `item` take.
pub open spec fn recipe_of(r: Seq<Recipe>, item: i32, q: int, x: i32) -> int {
    flow(r, unit(item, q), r.len() as int, x)
}

/// `base` and `steps` are the expansion of `q` units of `root`: its base
/// ingredients over the whole tree, and one step per depth strictly between
/// the root and the deepest level, the deepest first.
pub open spec fn is_expansion(r: Seq<Recipe>, root: i32, q: int, base: ItemList, steps: Seq<ItemList>) -> bool {
    let depth: nat = if recipe_has(r, root) { steps.len() + 2 } else { 1 };
    &&& is_depth(r, root, q, depth)
    &&& !recipe_has(r, root) ==> steps.len() == 0
    &&& base.wf()
    &&& forall|x: i32| #[trigger] base.count(x) == base_upto(r, root, q, depth, x)
    &&& forall|i: int| 0 <= i < steps.len() ==> #[trigger] steps[i].wf()
    &&& forall|i: int, x: i32| 0 <= i < steps.len() ==>
        #[trigger] steps[i].count(x) == step_count(r, root, q, (depth - 2 - i) as nat, x)
}

/// The rows of `rows`, in order, whose ingredient is among `ids`.
pub open spec fn known_rows(rows: Seq<Recipe>, ids: Seq<i32>) -> Seq<Recipe>
    decreases rows.len(),
{
    if rows.len() == 0 {
        rows
    } else if ids.contains(rows.last().ingredient_item_id) {
        known_rows(rows.drop_last(), ids).push(rows.last())
    } else {
        known_rows(rows.drop_last(), ids)
    }
}

/// Whether `items` holds an item with id `id`.
fn has_item(items: &Vec<Item>, id: i32) -> (r: bool)
    ensures
        r == items@.map_values(|i: Item| i.id).contains(id),
{
    let ghost ids = items@.map_values(|i: Item| i.id);
    let mut k: usize = 0;
    while k < items.len()
        invariant
            k <= items@.len(),
            ids == items@.map_values(|i: Item| i.id),
            forall|j: int| 0 <= j < k ==> #[trigger] items@[j].id != id,
        decreases items@.len() - k,
    {
        if items[k].id == id {
            proof {
                assert(ids[k as int] == id);
            }
            return true;
        }
        k += 1;
    }
    proof {
        if ids.contains(id) {
            let j = choose|j: int| 0 <= j < ids.len() && ids[j] == id;
            assert(items@[j].id == id);
        }
    }
    false
}

/// An expansion of nothing: an empty base, and one empty step for each
/// depth strictly between `root` and the deepest level of its tree.
pub open spec fn is_empty_expansion(r: Seq<Recipe>, root: i32, base: ItemList, steps: Seq<ItemList>) -> bool {
    &&& is_depth(r, root, 1, if recipe_has(r, root) { (steps.len() + 2) as nat } else { 1 })
    &&& !recipe_has(r, root) ==> steps.len() == 0
    &&& base.wf()
    &&& base@.len() == 0
    &&& forall|i: int| 0 <= i < steps.len() ==> (#[trigger] steps[i]).wf() && steps[i]@.len() == 0
}

/// The reference data of the game, read once: items, recipes, monsters,
/// what they drop and where they live.
pub struct GameData {
    items: Vec<Item>,
    recipes: Vec<Recipe>,
    monsters: Vec<Monster>,
    drops: Vec<Drop>,
    monster_sub_areas: Vec<MonsterSubArea>,
    sub_areas: Vec<SubArea>,
}

impl GameData {
    pub closed spec fn recipe_rows(&self) -> Seq<Recipe> {
        self.recipes@
    }

    pub closed spec fn item_ids(&self) -> Seq<i32> {
        self.items@.map_values(|i: Item| i.id)
    }

    pub closed spec fn drop_rows(&self) -> Seq<Drop> {
        self.drops@
    }

    pub closed spec fn habitat_rows(&self) -> Seq<MonsterSubArea> {
        self.monster_sub_areas@
    }

    pub closed spec fn monster_ids(&self) -> Seq<i32> {
        self.monsters@.map_values(|m: Monster| m.id)
    }

    pub closed spec fn sub_area_ids(&self) -> Seq<i32> {
        self.sub_areas@.map_values(|s: SubArea| s.id)
    }

    pub open spec fn wf(&self) -> bool {
        &&& rows_positive(self.recipe_rows())
        &&& forall|k: int| 0 <= k < self.recipe_rows().len() ==> self.item_ids().contains(#[trigger] self.recipe_rows()[k].ingredient_item_id)
    }

    /// Gathers the tables. A recipe row whose ingredient the item table does
    /// not list is left out; the tables are refused when a remaining row asks
    /// for a quantity that is not positive.
    pub fn new(
        items: Vec<Item>,
        recipes: Vec<Recipe>,
        monsters: Vec<Monster>,
        drops: Vec<Drop>,
        monster_sub_areas: Vec<MonsterSubArea>,
        sub_areas: Vec<SubArea>,
    ) -> (r: Option<GameData>)
        ensures
            r is Some <==> rows_positive(known_rows(recipes@, items@.map_values(|i: Item| i.id))),
            r matches Some(g) ==> g.wf() && g.recipe_rows() == known_rows(recipes@, items@.map_values(|i: Item| i.id))
                && g.drop_rows() == drops@
                && g.item_ids() == items@.map_values(|i: Item| i.id)
                && g.habitat_rows() == monster_sub_areas@
                && g.monster_ids() == monsters@.map_values(|m: Monster| m.id)
                && g.sub_area_ids() == sub_areas@.map_values(|s: SubArea| s.id),
    {
        let ghost ids = items@.map_values(|i: Item| i.id);
        let mut kept: Vec<Recipe> = Vec::new();
        let mut k: usize = 0;
        while k < recipes.len()
            invariant
                k <= recipes@.len(),
                ids == items@.map_values(|i: Item| i.id),
                kept@ == known_rows(recipes@.take(k as int), ids),
                forall|j: int| 0 <= j < kept@.len() ==> ids.contains(#[trigger] kept@[j].ingredient_item_id),
            decreases recipes@.len() - k,
        {
            let row = recipes[k];
            proof {
                assert(recipes@.take(k + 1).drop_last() =~= recipes@.take(k as int));
                assert(recipes@.take(k + 1).last() == row);
            }
            if has_item(&items, row.ingredient_item_id) {
                kept.push(row);
            }
            k += 1;
        }
        proof {
            assert(recipes@.take(recipes@.len() as int) =~= recipes@);
        }
        let mut j: usize = 0;
        while j < kept.len()
            invariant
                j <= kept@.len(),
                ids == items@.map_values(|i: Item| i.id),
                kept@ == known_rows(recipes@, ids),
                forall|i: int| 0 <= i < j ==> #[trigger] kept@[i].quantity > 0,
            decreases kept@.len() - j,
        {
            if kept[j].quantity <= 0 {
                proof {
                    assert(!(kept@[j as int].quantity > 0));
                }
                return None;
            }
            j += 1;
        }
        Some(GameData { items, recipes: kept, monsters, drops, monster_sub_areas, sub_areas })
    }

    /// The item with id `id`, if the table holds one.
    pub fn find_item(&self, id: i32) -> (r: Option<&Item>)
        ensures
            r is Some <==> self.item_ids().contains(id),
            r matches Some(i) ==> i.id == id,
    {
        let mut k: usize = 0;
        while k < self.items.len()
            invariant
                k <= self.items@.len(),
                forall|j: int| 0 <= j < k ==> #[trigger] self.items@[j].id != id,
            decreases self.items@.len() - k,
        {
            if self.items[k].id == id {
                proof {
                    assert(self.item_ids()[k as int] == id);
                }
                return Some(&self.items[k]);
            }
            k += 1;
        }
        proof {
            if self.item_ids().contains(id) {
                let j = choose|j: int| 0 <= j < self.item_ids().len() && self.item_ids()[j] == id;
                assert(self.items@[j].id == id);
            }
        }
        None
    }

    /// Whether some recipe row has `item` as its result.
    pub fn has_recipe(&self, item: i32) -> (r: bool)
        ensures
            r == recipe_has(self.recipe_rows(), item),
    {
        let mut k: usize = 0;
        while k < self.recipes.len()
            invariant
                k <= self.recipes@.len(),
                forall|j: int| 0 <= j < k ==> #[trigger] self.recipes@[j].result_item_id != item,
            decreases self.recipes@.len() - k,
        {
            if self.recipes[k].result_item_id == item {
                return true;
            }
            k += 1;
        }
        false
    }

    /// What `quantity` crafts of `item` take, one level down. Every item it
    /// names is in the item table: `new` leaves out rows whose ingredient is
    /// not.
    pub fn get_recipe(&self, item: i32, quantity: i16) -> (r: Result<ItemList, PlanError>)
        requires
            self.wf(),
            quantity >= 0,
        ensures
            r is Ok <==> forall|x: i32| #[trigger] recipe_of(self.recipe_rows(), item, quantity as int, x) <= QUANTITY_MAX,
            r matches Ok(l) ==> l.wf() && forall|x: i32| #[trigger] l.count(x) == recipe_of(self.recipe_rows(), item, quantity as int, x),
            r matches Ok(l) ==> forall|x: i32| #[trigger] l.count(x) > 0 ==> self.item_ids().contains(x),
            r matches Err(e) ==> e == PlanError::QuantityOverflow,
    {
        let ghost rows = self.recipe_rows();
        let ghost prev = unit(item, quantity as int);
        let mut out = ItemList::new();
        let n = self.recipes.len();
        let mut k: usize = 0;
        while k < n
            invariant
                n == rows.len(),
                rows == self.recipe_rows(),
                rows_positive(rows),
                prev == unit(item, quantity as int),
                quantity >= 0,
                k <= n,
                out.wf(),
                forall|x: i32| #[trigger] out.count(x) == flow(rows, prev, k as int, x),
            decreases n - k,
        {
            let row = self.recipes[k];
            proof {
                assert(row == rows[k as int]);
                assert(rows[k as int].quantity > 0);
            }
            if row.result_item_id == item {
                proof {
                    assert(quantity as int * row.quantity as int <= 32767 * 32767) by (nonlinear_arith)
                        requires 0 <= quantity <= 32767, 0 < row.quantity <= 32767;
                }
                let product: i32 = quantity as i32 * row.quantity as i32;
                proof {
                    out.lemma_wf_count(row.ingredient_item_id);
                    assert(prev(row.result_item_id) == quantity);
                    assert(flow(rows, prev, k + 1, row.ingredient_item_id) == flow(rows, prev, k as int, row.ingredient_item_id) + product);
                    assert forall|y: i32| #[trigger] prev(y) >= 0 by {}
                }
                if product > QUANTITY_MAX as i32 {
                    proof {
                        self.lemma_row_overflow(prev, k as int, product as int);
                        assert(recipe_of(rows, item, quantity as int, row.ingredient_item_id) > QUANTITY_MAX);
                    }
                    return Err(PlanError::QuantityOverflow);
                }
                let added = out.add_item(row.ingredient_item_id, product as i16);
                if added.is_err() {
                    proof {
                        self.lemma_row_overflow(prev, k as int, out.count(row.ingredient_item_id) + product);
                        assert(recipe_of(rows, item, quantity as int, row.ingredient_item_id) > QUANTITY_MAX);
                    }
                    return Err(PlanError::QuantityOverflow);
                }
            }
            k += 1;
        }
        proof {
            assert forall|x: i32| #[trigger] recipe_of(rows, item, quantity as int, x) <= QUANTITY_MAX by {
                out.lemma_wf_count(x);
            }
            assert forall|x: i32| #[trigger] out.count(x) > 0 implies self.item_ids().contains(x) by {
                crate::recipes::lemma_flow_source(rows, prev, rows.len() as int, x);
                let j = choose|j: int| 0 <= j < rows.len() && j < rows.len() && rows[j].ingredient_item_id == x && #[trigger] prev(rows[j].result_item_id) != 0;
                assert(self.item_ids().contains(rows[j].ingredient_item_id));
            }
        }
        Ok(out)
    }

    /// The number of recipe rows.
    pub fn recipe_count(&self) -> (r: usize)
        ensures
            r == self.recipe_rows().len(),
    {
        self.recipes.len()
    }

    /// Recipe row `k`.
    pub fn recipe_row(&self, k: usize) -> (r: Recipe)
        requires
            k < self.recipe_rows().len(),
        ensures
            r == self.recipe_rows()[k as int],
    {
        self.recipes[k]
    }

    /// Whether the monster table holds `id`.
    pub fn has_monster(&self, id: i32) -> (r: bool)
        ensures
            r == self.monster_ids().contains(id),
    {
        let mut k: usize = 0;
        while k < self.monsters.len()
            invariant
                k <= self.monsters@.len(),
                forall|j: int| 0 <= j < k ==> #[trigger] self.monsters@[j].id != id,
            decreases self.monsters@.len() - k,
        {
            if self.monsters[k].id == id {
                proof {
                    assert(self.monster_ids()[k as int] == id);
                }
                return true;
            }
            k += 1;
        }
        proof {
            if self.monster_ids().contains(id) {
                let j = choose|j: int| 0 <= j < self.monster_ids().len() && self.monster_ids()[j] == id;
                assert(self.monsters@[j].id == id);
            }
        }
        false
    }

    /// Whether the sub-area table holds `id`.
    pub fn has_sub_area(&self, id: i32) -> (r: bool)
        ensures
            r == self.sub_area_ids().contains(id),
    {
        let mut k: usize = 0;
        while k < self.sub_areas.len()
            invariant
                k <= self.sub_areas@.len(),
                forall|j: int| 0 <= j < k ==> #[trigger] self.sub_areas@[j].id != id,
            decreases self.sub_areas@.len() - k,
        {
            if self.sub_areas[k].id == id {
                proof {
                    assert(self.sub_area_ids()[k as int] == id);
                }
                return true;
            }
            k += 1;
        }
        proof {
            if self.sub_area_ids().contains(id) {
                let j = choose|j: int| 0 <= j < self.sub_area_ids().len() && self.sub_area_ids()[j] == id;
                assert(self.sub_areas@[j].id == id);
            }
        }
        false
    }

    /// The number of drop rows.
    pub fn drop_count(&self) -> (r: usize)
        ensures
            r == self.drop_rows().len(),
    {
        self.drops.len()
    }

    /// Drop row `k`.
    pub fn drop_row(&self, k: usize) -> (r: Drop)
        requires
            k < self.drop_rows().len(),
        ensures
            r == self.drop_rows()[k as int],
    {
        self.drops[k]
    }

    /// The number of rows that place a monster in a sub-area.
    pub fn habitat_count(&self) -> (r: usize)
        ensures
            r == self.habitat_rows().len(),
    {
        self.monster_sub_areas.len()
    }

    /// Habitat row `k`.
    pub fn habitat_row(&self, k: usize) -> (r: MonsterSubArea)
        requires
            k < self.habitat_rows().len(),
        ensures
            r == self.habitat_rows()[k as int],
    {
        self.monster_sub_areas[k]
    }

    /// When row `k` brings the partial sum for its ingredient above the
    /// largest stack, so does the full sum.
    proof fn lemma_row_overflow(&self, prev: spec_fn(i32) -> int, k: int, partial: int)
        requires
            rows_positive(self.recipe_rows()),
            forall|y: i32| #[trigger] prev(y) >= 0,
            0 <= k < self.recipe_rows().len(),
            partial <= flow(self.recipe_rows(), prev, k + 1, self.recipe_rows()[k].ingredient_item_id),
            partial > QUANTITY_MAX,
        ensures
            flow(self.recipe_rows(), prev, self.recipe_rows().len() as int, self.recipe_rows()[k].ingredient_item_id) > QUANTITY_MAX,
    {
        let rows = self.recipe_rows();
        lemma_flow_monotone(rows, prev, k + 1, rows.len() as int, rows[k].ingredient_item_id);
    }

    /// One level of expansion: the items of `frontier` that have a recipe
    /// make up the step, the others go to `base`, and what the recipes of the
    /// step ask for is the next frontier.
    fn expand_level(
        &self,
        frontier: &ItemList,
        base: &mut ItemList,
        Ghost(root): Ghost<i32>,
        Ghost(q): Ghost<int>,
        Ghost(lv): Ghost<nat>,
    ) -> (r: Result<(ItemList, ItemList), PlanError>)
        requires
            self.wf(),
            q > 0,
            frontier.wf(),
            old(base).wf(),
            forall|x: i32| #[trigger] frontier.count(x) == need(self.recipe_rows(), root, q, lv, x),
            forall|x: i32| #[trigger] old(base).count(x) == base_upto(self.recipe_rows(), root, q, lv, x),
        ensures
            final(base).wf(),
            r matches Ok(out) ==> {
                &&& out.0.wf()
                &&& out.1.wf()
                &&& forall|x: i32| #[trigger] out.0.count(x) == need(self.recipe_rows(), root, q, lv + 1, x)
                &&& forall|x: i32| #[trigger] out.1.count(x) == step_count(self.recipe_rows(), root, q, lv, x)
                &&& forall|x: i32| #[trigger] final(base).count(x) == base_upto(self.recipe_rows(), root, q, lv + 1, x)
            },
            r matches Err(e) ==> e == PlanError::QuantityOverflow
                && exists|x: i32| #[trigger] overflows_at(self.recipe_rows(), root, q, lv + 1, x),
    {
        let ghost rows = self.recipe_rows();
        let ghost f = frontier@;
        let mut step = ItemList::new();
        let m = frontier.len();
        let mut i: usize = 0;
        while i < m
            invariant
                m == f.len(),
                f == frontier@,
                frontier.wf(),
                rows == self.recipe_rows(),
                i <= m,
                step.wf(),
                base.wf(),
                forall|x: i32| #[trigger] frontier.count(x) == need(rows, root, q, lv, x),
                forall|x: i32| #[trigger] old(base).count(x) == base_upto(rows, root, q, lv, x),
                forall|x: i32| #[trigger] step.count(x) == if recipe_has(rows, x) { count_in(f.take(i as int), x) } else { 0 },
                forall|x: i32| #[trigger] base.count(x) == base_upto(rows, root, q, lv, x) + if recipe_has(rows, x) { 0 } else { count_in(f.take(i as int), x) },
            decreases m - i,
        {
            let (x, n) = frontier.entry(i);
            proof {
                assert(f.take(i + 1).drop_last() =~= f.take(i as int));
                assert forall|j: int| 0 <= j < i implies f.take(i as int)[j].0 != x by {
                    assert(f[j].0 < f[i as int].0);
                }
                lemma_count_absent(f.take(i as int), x);
                lemma_count_at(f, i as int);
                assert forall|y: i32| #[trigger] count_in(f.take(i + 1), y) == count_in(f.take(i as int), y) + if y == x { n as int } else { 0 } by {
                    assert(f.take(i + 1).last() == (x, n));
                }
            }
            if self.has_recipe(x) {
                step.set_item(x, n);
            } else {
                let added = base.add_item(x, n);
                if added.is_err() {
                    proof {
                        assert(count_in(f, x) == n as int);
                        assert(frontier.count(x) == n as int);
                        assert(need(rows, root, q, lv, x) == n as int);
                        assert(base.count(x) == base_upto(rows, root, q, lv, x));
                        assert(base_upto(rows, root, q, lv + 1, x) == base_upto(rows, root, q, lv, x) + need(rows, root, q, lv, x));
                        assert(base_upto(rows, root, q, lv + 1, x) > QUANTITY_MAX);
                        assert(overflows_at(rows, root, q, lv + 1, x));
                    }
                    return Err(PlanError::QuantityOverflow);
                }
            }
            i += 1;
        }
        proof {
            assert(f.take(m as int) =~= f);
            assert forall|x: i32| #[trigger] step.count(x) == step_count(rows, root, q, lv, x) by {
                assert(count_in(f, x) == frontier.count(x));
            }
            assert forall|x: i32| #[trigger] base.count(x) == base_upto(rows, root, q, lv + 1, x) by {
                assert(count_in(f, x) == frontier.count(x));
            }
        }
        let ghost prev = level(rows, root, q, lv);
        proof {
            lemma_need_nonneg(rows, root, q, lv);
            assert forall|y: i32| #[trigger] prev(y) >= 0 by {
                assert(need(rows, root, q, lv, y) >= 0);
            }
        }
        let mut next = ItemList::new();
        let n_rows = self.recipes.len();
        let mut k: usize = 0;
        while k < n_rows
            invariant
                n_rows == rows.len(),
                rows == self.recipe_rows(),
                rows_positive(rows),
                prev == level(rows, root, q, lv),
                forall|y: i32| #[trigger] prev(y) >= 0,
                frontier.wf(),
                forall|x: i32| #[trigger] frontier.count(x) == need(rows, root, q, lv, x),
                k <= n_rows,
                next.wf(),
                step.wf(),
                base.wf(),
                forall|x: i32| #[trigger] step.count(x) == step_count(rows, root, q, lv, x),
                forall|x: i32| #[trigger] base.count(x) == base_upto(rows, root, q, lv + 1, x),
                forall|x: i32| #[trigger] next.count(x) == flow(rows, prev, k as int, x),
            decreases n_rows - k,
        {
            let row = self.recipes[k];
            proof {
                assert(row == rows[k as int]);
                assert(rows[k as int].quantity > 0);
            }
            let c = frontier.get(row.result_item_id);
            proof {
                assert(prev(row.result_item_id) == c);
                assert(c as int * row.quantity as int <= 32767 * 32767) by (nonlinear_arith)
                    requires 0 <= c <= 32767, 0 < row.quantity <= 32767;
                assert(c as int * row.quantity as int >= 0) by (nonlinear_arith)
                    requires 0 <= c, 0 < row.quantity;
            }
            let product: i32 = c as i32 * row.quantity as i32;
            proof {
                next.lemma_wf_count(row.ingredient_item_id);
                assert(flow(rows, prev, k + 1, row.ingredient_item_id) == flow(rows, prev, k as int, row.ingredient_item_id) + product);
                assert forall|y: i32| y != row.ingredient_item_id implies #[trigger] flow(rows, prev, k + 1, y) == flow(rows, prev, k as int, y) by {}
            }
            if product > QUANTITY_MAX as i32 {
                proof {
                    self.lemma_row_overflow(prev, k as int, product as int);
                    assert(need(rows, root, q, lv + 1, row.ingredient_item_id) > QUANTITY_MAX);
                    assert(overflows_at(rows, root, q, lv + 1, row.ingredient_item_id));
                }
                return Err(PlanError::QuantityOverflow);
            }
            if product > 0 {
                let added = next.add_item(row.ingredient_item_id, product as i16);
                if added.is_err() {
                    proof {
                        self.lemma_row_overflow(prev, k as int, next.count(row.ingredient_item_id) + product);
                        assert(need(rows, root, q, lv + 1, row.ingredient_item_id) > QUANTITY_MAX);
                        assert(overflows_at(rows, root, q, lv + 1, row.ingredient_item_id));
                    }
                    return Err(PlanError::QuantityOverflow);
                }
            }
            k += 1;
        }
        Ok((next, step))
    }

    /// Expands `quantity` units of `root` down to base ingredients. Returns
    /// the base ingredients and the crafting steps, the step closest to the
    /// base ingredients first; the root itself is in no step. A quantity of
    /// zero or less crafts nothing: the base is empty and each step of the
    /// tree is there, empty. Fails when a quantity does not fit in a stack,
    /// or with `CyclicRecipe` when the tree still has items more levels down
    /// than there are recipe rows. Without a cycle every chain of rows crafts
    /// distinct items, so no tree is deeper than the number of rows; the
    /// bound counts rows rather than the item table because the item table
    /// need not list the result of every row.
    pub fn full_recipe(&self, root: i32, quantity: i16) -> (r: Result<(ItemList, Vec<ItemList>), PlanError>)
        requires
            self.wf(),
        ensures
            quantity > 0 ==> (r is Ok <==> expands_within(self.recipe_rows(), root, quantity as int, (self.recipe_rows().len() + 1) as nat)),
            quantity > 0 ==> (r matches Ok(out) ==> is_expansion(self.recipe_rows(), root, quantity as int, out.0, out.1@)),
            quantity <= 0 ==> (r is Ok <==> expands_within(self.recipe_rows(), root, 1, (self.recipe_rows().len() + 1) as nat)),
            quantity <= 0 ==> (r matches Ok(out) ==> is_empty_expansion(self.recipe_rows(), root, out.0, out.1@)),
            r matches Err(e) ==> e == PlanError::QuantityOverflow || (e == PlanError::CyclicRecipe
                && !level_empty(self.recipe_rows(), root, if quantity > 0 { quantity as int } else { 1 }, (self.recipe_rows().len() + 1) as nat)),
            quantity > 0 && !level_empty(self.recipe_rows(), root, quantity as int, (self.recipe_rows().len() + 1) as nat)
                && fits(self.recipe_rows(), root, quantity as int, (self.recipe_rows().len() + 1) as nat)
                ==> r == Err::<(ItemList, Vec<ItemList>), PlanError>(PlanError::CyclicRecipe),
    {
        if quantity > 0 {
            return self.expand_units(root, quantity);
        }
        match self.expand_units(root, 1) {
            Ok((_, steps)) => {
                let mut empty: Vec<ItemList> = Vec::new();
                let mut i: usize = 0;
                while i < steps.len()
                    invariant
                        i <= steps@.len(),
                        empty@.len() == i,
                        forall|j: int| 0 <= j < i ==> (#[trigger] empty@[j]).wf() && empty@[j]@.len() == 0,
                    decreases steps@.len() - i,
                {
                    empty.push(ItemList::new());
                    i += 1;
                }
                Ok((ItemList::new(), empty))
            },
            Err(e) => Err(e),
        }
    }

    /// Expands a positive quantity of `root`.
    fn expand_units(&self, root: i32, quantity: i16) -> (r: Result<(ItemList, Vec<ItemList>), PlanError>)
        requires
            self.wf(),
            quantity > 0,
        ensures
            r is Ok <==> expands_within(self.recipe_rows(), root, quantity as int, (self.recipe_rows().len() + 1) as nat),
            r matches Ok(out) ==> is_expansion(self.recipe_rows(), root, quantity as int, out.0, out.1@),
            r matches Err(e) ==> e == PlanError::QuantityOverflow || (e == PlanError::CyclicRecipe
                && !level_empty(self.recipe_rows(), root, quantity as int, (self.recipe_rows().len() + 1) as nat)),
            !level_empty(self.recipe_rows(), root, quantity as int, (self.recipe_rows().len() + 1) as nat)
                && fits(self.recipe_rows(), root, quantity as int, (self.recipe_rows().len() + 1) as nat)
                ==> r == Err::<(ItemList, Vec<ItemList>), PlanError>(PlanError::CyclicRecipe),
    {
        let ghost rows = self.recipe_rows();
        let ghost q = quantity as int;
        let n = self.recipes.len();
        let mut frontier = ItemList::new();
        frontier.set_item(root, quantity);
        let mut base = ItemList::new();
        let mut steps: Vec<ItemList> = Vec::new();
        let mut d: usize = 0;
        let ghost mut lv: nat = 0;
        proof {
            frontier.lemma_empty_iff();
            assert(frontier.count(root) == q);
            assert(!frontier.is_empty_spec());
        }
        while !frontier.is_empty()
            invariant
                rows == self.recipe_rows(),
                n == rows.len(),
                self.wf(),
                q == quantity as int,
                q > 0,
                lv <= n + 1,
                frontier@.len() > 0 ==> d == lv && lv <= n,
                frontier.wf(),
                base.wf(),
                forall|x: i32| #[trigger] frontier.count(x) == need(rows, root, q, lv, x),
                forall|x: i32| #[trigger] base.count(x) == base_upto(rows, root, q, lv, x),
                steps@.len() == lv,
                forall|i: int| 0 <= i < lv ==> #[trigger] steps@[i].wf(),
                forall|i: int, x: i32| 0 <= i < lv ==> #[trigger] steps@[i].count(x) == step_count(rows, root, q, i as nat, x),
                forall|e: nat| e < lv ==> !#[trigger] level_empty(rows, root, q, e),
                forall|e: nat, x: i32| e <= lv ==> #[trigger] need(rows, root, q, e, x) <= QUANTITY_MAX,
            decreases n + 1 - lv,
        {
            proof {
                frontier.lemma_empty_iff();
                assert(!level_empty(rows, root, q, lv)) by {
                    let x = choose|x: i32| #[trigger] frontier.count(x) != 0;
                    assert(need(rows, root, q, lv, x) != 0);
                }
            }
            let level_result = self.expand_level(&frontier, &mut base, Ghost(root), Ghost(q), Ghost(lv));
            let (next, step) = match level_result {
                Ok(pair) => pair,
                Err(e) => {
                    proof {
                        self.lemma_no_expansion_after_overflow(root, q, lv);
                        let bound = (rows.len() + 1) as nat;
                        if fits(rows, root, q, bound) {
                            let x = choose|x: i32| #[trigger] overflows_at(rows, root, q, lv + 1, x);
                            lemma_base_monotone(rows, root, q, lv + 1, bound, x);
                            assert(need(rows, root, q, lv + 1, x) <= QUANTITY_MAX);
                            assert(base_upto(rows, root, q, bound, x) <= QUANTITY_MAX);
                        }
                    }
                    return Err(e);
                }
            };
            steps.push(step);
            proof {
                next.lemma_empty_iff();
                assert forall|x: i32| #[trigger] need(rows, root, q, lv + 1, x) <= QUANTITY_MAX by {
                    next.lemma_wf_count(x);
                }
            }
            if !next.is_empty() {
                if d == n {
                    proof {
                        assert(!level_empty(rows, root, q, lv + 1)) by {
                            let x = choose|x: i32| #[trigger] next.count(x) != 0;
                            assert(need(rows, root, q, lv + 1, x) != 0);
                        }
                    }
                    return Err(PlanError::CyclicRecipe);
                }
                d = d + 1;
            }
            frontier = next;
            proof {
                lv = lv + 1;
            }
        }
        proof {
            frontier.lemma_empty_iff();
            assert forall|x: i32| #[trigger] need(rows, root, q, lv, x) == 0 by {
                assert(frontier.count(x) == 0);
            }
            assert(level_empty(rows, root, q, lv));
            assert(need(rows, root, q, 0, root) == q);
            assert(lv >= 1);
            lemma_first_level(rows, root, q);
        }
        let ghost all = steps@;
        let ghost depth = lv;
        steps.pop();
        let mut out: Vec<ItemList> = Vec::new();
        while steps.len() > 1
            invariant
                1 <= depth,
                steps@.len() <= depth - 1,
                steps@.len() >= 1 || depth == 1,
                all.len() == depth,
                forall|i: int| 0 <= i < steps@.len() ==> steps@[i] == all[i],
                out@.len() == depth - 1 - steps@.len(),
                forall|j: int| 0 <= j < out@.len() ==> out@[j] == all[depth - 2 - j],
            decreases steps@.len(),
        {
            let s = steps.pop();
            match s {
                Some(list) => out.push(list),
                None => {},
            }
        }
        proof {
            assert(is_depth(rows, root, q, depth));
            assert forall|x: i32| #[trigger] base_upto(rows, root, q, depth, x) <= QUANTITY_MAX by {
                base.lemma_wf_count(x);
            }
            assert(fits(rows, root, q, depth));
            if !level_empty(rows, root, q, (rows.len() + 1) as nat) {
                lemma_empty_stays(rows, root, q, depth, (rows.len() + 1) as nat);
            }
        }
        Ok((base, out))
    }

    proof fn lemma_no_expansion_after_overflow(&self, root: i32, q: int, lv: nat)
        requires
            self.wf(),
            q > 0,
            forall|e: nat| e <= lv ==> !#[trigger] level_empty(self.recipe_rows(), root, q, e),
            exists|x: i32| #[trigger] overflows_at(self.recipe_rows(), root, q, lv + 1, x),
        ensures
            !expands_within(self.recipe_rows(), root, q, (self.recipe_rows().len() + 1) as nat),
    {
        let rows = self.recipe_rows();
        let x = choose|x: i32| #[trigger] overflows_at(rows, root, q, lv + 1, x);
        if expands_within(rows, root, q, (rows.len() + 1) as nat) {
            let depth = choose|depth: nat| depth <= rows.len() + 1 && #[trigger] is_depth(rows, root, q, depth) && fits(rows, root, q, depth);
            if depth <= lv {
                assert(!level_empty(rows, root, q, depth));
            }
            assert(need(rows, root, q, lv + 1, x) <= QUANTITY_MAX);
            lemma_base_monotone(rows, root, q, lv + 1, depth, x);
            assert(base_upto(rows, root, q, depth, x) <= QUANTITY_MAX);
        }
    }
}

impl Item {
    /// Whether this item is crafted from other items.
    pub fn has_recipe(&self, data: &GameData) -> (r: bool)
        ensures
            r == recipe_has(data.recipe_rows(), self.id),
    {
        data.has_recipe(self.id)
    }

    /// What `quantity` crafts of this item take, one level down.
    pub fn get_recipe(&self, quantity: i16, data: &GameData) -> (r: Result<ItemList, PlanError>)
        requires
            data.wf(),
            quantity >= 0,
        ensures
            r is Ok <==> forall|x: i32| #[trigger] recipe_of(data.recipe_rows(), self.id, quantity as int, x) <= QUANTITY_MAX,
            r matches Ok(l) ==> l.wf() && forall|x: i32| #[trigger] l.count(x) == recipe_of(data.recipe_rows(), self.id, quantity as int, x),
            r matches Ok(l) ==> forall|x: i32| #[trigger] l.count(x) > 0 ==> data.item_ids().contains(x),
            r matches Err(e) ==> e == PlanError::QuantityOverflow,
    {
        data.get_recipe(self.id, quantity)
    }

    /// The base ingredients and crafting steps of `quantity` units of this
    /// item, the step closest to the base ingredients first.
    pub fn get_full_recipe(&self, quantity: i16, data: &GameData) -> (r: Result<(ItemList, Vec<ItemList>), PlanError>)
        requires
            data.wf(),
        ensures
            quantity > 0 ==> (r is Ok <==> expands_within(data.recipe_rows(), self.id, quantity as int, (data.recipe_rows().len() + 1) as nat)),
            quantity > 0 ==> (r matches Ok(out) ==> is_expansion(data.recipe_rows(), self.id, quantity as int, out.0, out.1@)),
            quantity <= 0 ==> (r is Ok <==> expands_within(data.recipe_rows(), self.id, 1, (data.recipe_rows().len() + 1) as nat)),
            quantity <= 0 ==> (r matches Ok(out) ==> is_empty_expansion(data.recipe_rows(), self.id, out.0, out.1@)),
            r matches Err(e) ==> e == PlanError::QuantityOverflow || (e == PlanError::CyclicRecipe
                && !level_empty(data.recipe_rows(), self.id, if quantity > 0 { quantity as int } else { 1 }, (data.recipe_rows().len() + 1) as nat)),
            quantity > 0 && !level_empty(data.recipe_rows(), self.id, quantity as int, (data.recipe_rows().len() + 1) as nat)
                && fits(data.recipe_rows(), self.id, quantity as int, (data.recipe_rows().len() + 1) as nat)
                ==> r == Err::<(ItemList, Vec<ItemList>), PlanError>(PlanError::CyclicRecipe),
    {
        data.full_recipe(self.id, quantity)
    }
}

} // verus!
