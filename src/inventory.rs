use vstd::prelude::*;

verus! {

use crate::error::PlanError;
use crate::game_data::{GameData, is_expansion, recipe_of, unit};
use crate::item_list::{ItemList, QUANTITY_MAX, counts};
use crate::models::{Recipe, UserIngredient};
use crate::wish_list::add_distinct;
use crate::recipes::{
    base_upto, expands_within, fits, flow, is_depth, lemma_base_monotone, lemma_depth_unique,
    lemma_empty_stays, lemma_flow_congruent, lemma_flow_le, lemma_flow_monotone, lemma_flow_source,
    lemma_need_nonneg, level, level_empty, need, recipe_has, rows_positive, step_count,
};

/// Some recipe row takes `x` as an ingredient.
pub open spec fn is_ingredient(r: Seq<Recipe>, x: i32) -> bool {
    exists|k: int| 0 <= k < r.len() && #[trigger] r[k].ingredient_item_id == x
}

/// Some record is about item `x`.
pub open spec fn recorded(records: Seq<UserIngredient>, x: i32) -> bool {
    exists|i: int| 0 <= i < records.len() && #[trigger] records[i].item_id == x
}

/// Changes the held quantity of `item_id` by `delta`, never below zero. A
/// quantity of zero leaves the inventory. Returns the record to store, whose
/// quantity zero means the row is deleted.
pub fn apply_delta(inventory: &mut ItemList, item_id: i32, delta: i32) -> (r: Result<UserIngredient, PlanError>)
    requires
        old(inventory).wf(),
    ensures
        final(inventory).wf(),
        r is Ok <==> old(inventory).count(item_id) + delta <= QUANTITY_MAX,
        r is Err ==> r == Err::<UserIngredient, PlanError>(PlanError::QuantityOverflow) && final(inventory)@ == old(inventory)@,
        r matches Ok(rec) ==> {
            &&& final(inventory).count(item_id) == if old(inventory).count(item_id) + delta < 0 { 0 } else { old(inventory).count(item_id) + delta }
            &&& forall|x: i32| x != item_id ==> #[trigger] final(inventory).count(x) == old(inventory).count(x)
            &&& rec == (UserIngredient { item_id, quantity: final(inventory).count(item_id) as i16 })
        },
{
    let held = inventory.get(item_id);
    let total: i64 = held as i64 + delta as i64;
    if total > QUANTITY_MAX as i64 {
        return Err(PlanError::QuantityOverflow);
    }
    let now: i16 = if total < 0 { 0 } else { total as i16 };
    inventory.set_item(item_id, now);
    Ok(UserIngredient { item_id, quantity: now })
}

/// What a recipe asks for is the ingredient of one of its rows.
proof fn lemma_recipe_items_are_ingredients(r: Seq<Recipe>, item: i32, q: int, x: i32)
    requires
        recipe_of(r, item, q, x) != 0,
    ensures
        is_ingredient(r, x),
{
    lemma_flow_source(r, unit(item, q), r.len() as int, x);
    let j = choose|j: int| 0 <= j < r.len() && j < r.len() && r[j].ingredient_item_id == x && #[trigger] unit(item, q)(r[j].result_item_id) != 0;
    assert(r[j].ingredient_item_id == x);
}

/// An overflow while expanding the shortfalls at some depth of the tree of
/// `q` units of `item` rules out an expansion of that tree within `bound`.
proof fn lemma_too_large_at(r: Seq<Recipe>, item: i32, q: int, d: nat, y: i32, bound: nat)
    requires
        rows_positive(r),
        need(r, item, q, d, y) > QUANTITY_MAX,
        d <= bound,
    ensures
        !expands_within(r, item, q, bound),
{
    if expands_within(r, item, q, bound) {
        let depth = choose|depth: nat| depth <= bound && #[trigger] is_depth(r, item, q, depth) && fits(r, item, q, depth);
        if d > depth {
            lemma_empty_stays(r, item, q, depth, d);
            assert(need(r, item, q, d, y) == 0);
        } else {
            assert(need(r, item, q, d, y) <= QUANTITY_MAX);
        }
    }
}

/// Expands the shortfalls of one level, row by row: what every recipe row
/// asks for, for its result's shortfall.
fn expand_shortfalls(data: &GameData, short: &ItemList, Ghost(bound): Ghost<spec_fn(i32) -> int>) -> (r: Result<ItemList, PlanError>)
    requires
        data.wf(),
        short.wf(),
        forall|y: i32| 0 <= #[trigger] short.count(y) <= bound(y),
    ensures
        r matches Ok(next) ==> next.wf() && forall|y: i32| #[trigger] next.count(y) == flow(data.recipe_rows(), counts(*short), data.recipe_rows().len() as int, y),
        r matches Err(e) ==> e == PlanError::QuantityOverflow && exists|y: i32| #[trigger] flow(data.recipe_rows(), bound, data.recipe_rows().len() as int, y) > QUANTITY_MAX,
        r is Err ==> exists|y: i32| #[trigger] flow(data.recipe_rows(), counts(*short), data.recipe_rows().len() as int, y) > QUANTITY_MAX,
{
    let ghost rows = data.recipe_rows();
    let ghost prev = counts(*short);
    proof {
        assert forall|y: i32| 0 <= #[trigger] prev(y) <= bound(y) by {
            assert(prev(y) == short.count(y));
        }
    }
    let mut next = ItemList::new();
    let n = data.recipe_count();
    let mut k: usize = 0;
    while k < n
        invariant
            rows == data.recipe_rows(),
            n == rows.len(),
            rows_positive(rows),
            short.wf(),
            prev == counts(*short),
            forall|y: i32| 0 <= #[trigger] prev(y) <= bound(y),
            k <= n,
            next.wf(),
            forall|y: i32| #[trigger] next.count(y) == flow(rows, prev, k as int, y),
        decreases n - k,
    {
        let row = data.recipe_row(k);
        proof {
            assert(rows[k as int].quantity > 0);
        }
        let c = short.get(row.result_item_id);
        proof {
            assert(prev(row.result_item_id) == c);
            assert(c as int * row.quantity as int <= 32767 * 32767) by (nonlinear_arith)
                requires 0 <= c <= 32767, 0 < row.quantity <= 32767;
            assert(c as int * row.quantity as int >= 0) by (nonlinear_arith)
                requires 0 <= c, 0 < row.quantity;
            next.lemma_wf_count(row.ingredient_item_id);
        }
        let product: i32 = c as i32 * row.quantity as i32;
        proof {
            assert(flow(rows, prev, k + 1, row.ingredient_item_id) == flow(rows, prev, k as int, row.ingredient_item_id) + product);
            assert forall|y: i32| y != row.ingredient_item_id implies #[trigger] flow(rows, prev, k + 1, y) == flow(rows, prev, k as int, y) by {}
        }
        if product > QUANTITY_MAX as i32 || (product > 0 && next.add_item(row.ingredient_item_id, product as i16).is_err()) {
            proof {
                let y = row.ingredient_item_id;
                lemma_flow_monotone(rows, prev, k + 1, rows.len() as int, y);
                lemma_flow_le(rows, prev, bound, rows.len() as int, y);
                assert(flow(rows, bound, rows.len() as int, y) > QUANTITY_MAX);
                assert(flow(rows, counts(*short), rows.len() as int, y) > QUANTITY_MAX);
            }
            return Err(PlanError::QuantityOverflow);
        }
        k += 1;
    }
    Ok(next)
}

/// What one level of crafting takes of `x`: what it wants, as far as what is
/// held goes.
pub open spec fn taken(held: spec_fn(i32) -> int, wanted: spec_fn(i32) -> int, x: i32) -> int {
    if held(x) < wanted(x) { held(x) } else { wanted(x) }
}

/// What one level of crafting still misses of each crafted item once the
/// held quantities are taken; a missing base ingredient is not looked for
/// further.
pub open spec fn shortfall(r: Seq<Recipe>, held: spec_fn(i32) -> int, wanted: spec_fn(i32) -> int) -> spec_fn(i32) -> int {
    |x: i32| if recipe_has(r, x) { wanted(x) - taken(held, wanted, x) } else { 0 }
}

/// The held and the wanted quantities after `d` levels of crafting `q`
/// units of `item` from the holdings `held`: level zero wants the item's
/// own recipe; each level takes what it wants from what is held, and the
/// next level wants what the recipes of its shortfalls ask for.
pub open spec fn craft_level(r: Seq<Recipe>, held: spec_fn(i32) -> int, item: i32, q: int, d: nat) -> (spec_fn(i32) -> int, spec_fn(i32) -> int)
    decreases d,
{
    if d == 0 {
        (held, |y: i32| recipe_of(r, item, q, y))
    } else {
        let (h, w) = craft_level(r, held, item, q, (d - 1) as nat);
        (|x: i32| h(x) - taken(h, w, x), |y: i32| flow(r, shortfall(r, h, w), r.len() as int, y))
    }
}

/// Held quantity of `x` after `d` levels of crafting.
pub open spec fn crafted_held(r: Seq<Recipe>, held: spec_fn(i32) -> int, item: i32, q: int, d: nat, x: i32) -> int {
    craft_level(r, held, item, q, d).0(x)
}

/// Wanted quantity of `x` at level `d` of crafting.
pub open spec fn craft_wanted(r: Seq<Recipe>, held: spec_fn(i32) -> int, item: i32, q: int, d: nat, x: i32) -> int {
    craft_level(r, held, item, q, d).1(x)
}

/// Level `d` of crafting wants nothing more.
pub open spec fn craft_done(r: Seq<Recipe>, held: spec_fn(i32) -> int, item: i32, q: int, d: nat) -> bool {
    forall|y: i32| #[trigger] craft_wanted(r, held, item, q, d, y) == 0
}

/// Held quantities that start non-negative stay so level after level.
pub proof fn lemma_craft_held_nonneg(r: Seq<Recipe>, held: spec_fn(i32) -> int, item: i32, q: int, d: nat)
    requires
        forall|x: i32| #[trigger] held(x) >= 0,
    ensures
        forall|x: i32| #[trigger] crafted_held(r, held, item, q, d, x) >= 0,
    decreases d,
{
    if d > 0 {
        lemma_craft_held_nonneg(r, held, item, q, (d - 1) as nat);
        assert forall|x: i32| #[trigger] crafted_held(r, held, item, q, d, x) >= 0 by {
            assert(crafted_held(r, held, item, q, (d - 1) as nat, x) >= 0);
        }
    }
}

/// Once a level wants nothing, crafting is over: every later level wants
/// nothing and leaves the held quantities as they are. The result of a
/// craft does not depend on which such level is looked at.
pub proof fn lemma_craft_settles(r: Seq<Recipe>, held: spec_fn(i32) -> int, item: i32, q: int, d: nat, e: nat)
    requires
        forall|x: i32| #[trigger] held(x) >= 0,
        craft_done(r, held, item, q, d),
        d <= e,
    ensures
        craft_done(r, held, item, q, e),
        forall|x: i32| #[trigger] crafted_held(r, held, item, q, e, x) == crafted_held(r, held, item, q, d, x),
    decreases e - d,
{
    if d < e {
        lemma_craft_settles(r, held, item, q, d, (e - 1) as nat);
        lemma_craft_held_nonneg(r, held, item, q, (e - 1) as nat);
        let (h, w) = craft_level(r, held, item, q, (e - 1) as nat);
        assert forall|x: i32| #[trigger] crafted_held(r, held, item, q, e, x) == crafted_held(r, held, item, q, d, x) by {
            assert(w(x) == craft_wanted(r, held, item, q, (e - 1) as nat, x));
            assert(h(x) == crafted_held(r, held, item, q, (e - 1) as nat, x));
        }
        assert forall|y: i32| #[trigger] craft_wanted(r, held, item, q, e, y) == 0 by {
            assert forall|j: int| 0 <= j < r.len() implies #[trigger] shortfall(r, h, w)(r[j].result_item_id) == 0 by {
                assert(w(r[j].result_item_id) == craft_wanted(r, held, item, q, (e - 1) as nat, r[j].result_item_id));
                assert(h(r[j].result_item_id) == crafted_held(r, held, item, q, (e - 1) as nat, r[j].result_item_id));
            }
            crate::recipes::lemma_flow_unwanted(r, shortfall(r, h, w), r.len() as int, y);
        }
    }
}

/// Any two levels at which crafting is over hold the same quantities: the
/// outcome of a craft is one.
pub proof fn law_craft_outcome_is_unique(r: Seq<Recipe>, held: spec_fn(i32) -> int, item: i32, q: int, d: nat, e: nat)
    requires
        forall|x: i32| #[trigger] held(x) >= 0,
        craft_done(r, held, item, q, d),
        craft_done(r, held, item, q, e),
    ensures
        forall|x: i32| #[trigger] crafted_held(r, held, item, q, d, x) == crafted_held(r, held, item, q, e, x),
{
    if d <= e {
        lemma_craft_settles(r, held, item, q, d, e);
    } else {
        lemma_craft_settles(r, held, item, q, e, d);
    }
}

/// When everything the item's own recipe asks for is held, crafting takes
/// exactly that, goes no deeper, and leaves everything else as it is.
pub proof fn law_craft_from_full_stock(r: Seq<Recipe>, held: spec_fn(i32) -> int, item: i32, q: int)
    requires
        rows_positive(r),
        q >= 0,
        forall|x: i32| #[trigger] held(x) >= recipe_of(r, item, q, x),
    ensures
        craft_done(r, held, item, q, 1),
        forall|x: i32| #[trigger] crafted_held(r, held, item, q, 1, x) == held(x) - recipe_of(r, item, q, x),
{
    let (h, w) = craft_level(r, held, item, q, 0);
    assert forall|x: i32| #[trigger] w(x) >= 0 by {
        let prev = unit(item, q);
        assert forall|y: i32| #[trigger] prev(y) >= 0 by {}
        crate::recipes::lemma_flow_nonneg(r, prev, r.len() as int, x);
    }
    assert forall|x: i32| #[trigger] crafted_held(r, held, item, q, 1, x) == held(x) - recipe_of(r, item, q, x) by {
        assert(w(x) == recipe_of(r, item, q, x));
        assert(held(x) >= w(x));
    }
    assert forall|y: i32| #[trigger] craft_wanted(r, held, item, q, 1, y) == 0 by {
        assert forall|j: int| 0 <= j < r.len() implies #[trigger] shortfall(r, h, w)(r[j].result_item_id) == 0 by {
            assert(held(r[j].result_item_id) >= w(r[j].result_item_id));
        }
        crate::recipes::lemma_flow_unwanted(r, shortfall(r, h, w), r.len() as int, y);
    }
}

/// With the item's own recipe held in full, the first level leaves no
/// shortfall.
proof fn lemma_full_stock_no_shortfall(r: Seq<Recipe>, held: spec_fn(i32) -> int, item: i32, q: int)
    requires
        forall|x: i32| #[trigger] held(x) >= recipe_of(r, item, q, x),
    ensures
        forall|x: i32| #[trigger] shortfall(r, craft_level(r, held, item, q, 0).0, craft_level(r, held, item, q, 0).1)(x) == 0,
{
    let (h, w) = craft_level(r, held, item, q, 0);
    assert forall|x: i32| #[trigger] shortfall(r, h, w)(x) == 0 by {
        assert(w(x) == recipe_of(r, item, q, x));
        assert(h(x) >= w(x));
    }
}

/// Some of the first `i` entries of `s` is item `x`.
pub open spec fn in_prefix(s: Seq<(i32, i16)>, i: int, x: i32) -> bool {
    exists|j: int| 0 <= j < i && #[trigger] s[j].0 == x
}

/// Takes from the inventory what crafting `quantity` units of `item_id`
/// uses. Each ingredient of the recipe is taken from what is held, as far
/// as it goes; what is still missing of an ingredient that is itself crafted
/// is looked for one level further down, level by level. Returns one record
/// per changed item, to store; a quantity of zero means the row is deleted.
/// Nothing changes on failure. It succeeds whenever the whole recipe tree of
/// `quantity` units expands within the bound that rules out cycles, and the
/// inventory it leaves is the one `craft_level` describes at the level where
/// nothing more is wanted.
pub fn consume_for_craft(inventory: &mut ItemList, data: &GameData, item_id: i32, quantity: i16) -> (r: Result<Vec<UserIngredient>, PlanError>)
    requires
        old(inventory).wf(),
        data.wf(),
        quantity >= 0,
    ensures
        final(inventory).wf(),
        expands_within(data.recipe_rows(), item_id, quantity as int, (data.recipe_rows().len() + 1) as nat) ==> r is Ok,
        r is Err ==> final(inventory)@ == old(inventory)@,
        r matches Err(e) ==> e == PlanError::QuantityOverflow || e == PlanError::CyclicRecipe,
        r == Err::<Vec<UserIngredient>, PlanError>(PlanError::CyclicRecipe) ==>
            !level_empty(data.recipe_rows(), item_id, quantity as int, (data.recipe_rows().len() + 1) as nat),
        r is Ok ==> forall|x: i32| 0 <= #[trigger] final(inventory).count(x) <= old(inventory).count(x),
        r is Ok ==> forall|x: i32| !is_ingredient(data.recipe_rows(), x) ==> #[trigger] final(inventory).count(x) == old(inventory).count(x),
        r matches Ok(records) ==> forall|i: int| 0 <= i < records@.len() ==>
            (#[trigger] records@[i]).quantity == final(inventory).count(records@[i].item_id)
            && records@[i].quantity != old(inventory).count(records@[i].item_id),
        r matches Ok(records) ==> forall|x: i32| #[trigger] final(inventory).count(x) != old(inventory).count(x) ==>
            recorded(records@, x),
        (forall|x: i32| #[trigger] old(inventory).count(x) >= recipe_of(data.recipe_rows(), item_id, quantity as int, x)) ==> r is Ok,
        r is Ok ==> exists|d: nat| {
            &&& d <= data.recipe_rows().len()
            &&& #[trigger] craft_done(data.recipe_rows(), counts(*old(inventory)), item_id, quantity as int, d)
            &&& forall|x: i32| #[trigger] final(inventory).count(x) == crafted_held(data.recipe_rows(), counts(*old(inventory)), item_id, quantity as int, d, x)
        },
{
    let ghost rows = data.recipe_rows();
    let ghost h0 = counts(*old(inventory));
    let ghost q = quantity as int;
    let ghost full = forall|x: i32| #[trigger] old(inventory).count(x) >= recipe_of(rows, item_id, q, x);
    let ghost bound = (rows.len() + 1) as nat;
    let mut work = inventory.duplicate();
    let mut touched: Vec<i32> = Vec::new();
    proof {
        let prev = level(rows, item_id, q, 0);
        assert forall|j: int| 0 <= j < rows.len() implies #[trigger] prev(rows[j].result_item_id) == unit(item_id, q)(rows[j].result_item_id) by {}
        assert forall|x: i32| #[trigger] recipe_of(rows, item_id, q, x) == need(rows, item_id, q, 1, x) by {
            lemma_flow_congruent(rows, unit(item_id, q), prev, rows.len() as int, x);
        }
    }
    let mut wanted = match data.get_recipe(item_id, quantity) {
        Ok(l) => l,
        Err(e) => {
            proof {
                let x = choose|x: i32| !(#[trigger] recipe_of(rows, item_id, q, x) <= QUANTITY_MAX);
                lemma_too_large_at(rows, item_id, q, 1, x, bound);
                old(inventory).lemma_wf_count(x);
            }
            return Err(e);
        },
    };
    proof {
        assert forall|x: i32| #[trigger] wanted.count(x) > 0 implies is_ingredient(rows, x) by {
            lemma_recipe_items_are_ingredients(rows, item_id, q, x);
        }
        assert forall|x: i32| 0 <= #[trigger] work.count(x) <= old(inventory).count(x) by {
            work.lemma_wf_count(x);
        }
    }
    let n = data.recipe_count();
    let mut d: usize = 0;
    while !wanted.is_empty()
        invariant
            rows == data.recipe_rows(),
            n == rows.len(),
            bound == n + 1,
            q == quantity as int,
            q >= 0,
            data.wf(),
            old(inventory).wf(),
            inventory@ == old(inventory)@,
            work.wf(),
            wanted.wf(),
            d <= n,
            touched@.no_duplicates(),
            forall|x: i32| #[trigger] wanted.count(x) > 0 ==> is_ingredient(rows, x),
            forall|x: i32| #[trigger] wanted.count(x) <= need(rows, item_id, q, (d + 1) as nat, x),
            forall|x: i32| 0 <= #[trigger] work.count(x) <= old(inventory).count(x),
            forall|x: i32| !is_ingredient(rows, x) ==> #[trigger] work.count(x) == old(inventory).count(x),
            forall|x: i32| #[trigger] work.count(x) != old(inventory).count(x) ==> touched@.contains(x),
            h0 == counts(*old(inventory)),
            forall|x: i32| #[trigger] work.count(x) == crafted_held(rows, h0, item_id, q, d as nat, x),
            forall|y: i32| #[trigger] wanted.count(y) == craft_wanted(rows, h0, item_id, q, d as nat, y),
            full == forall|x: i32| #[trigger] old(inventory).count(x) >= recipe_of(rows, item_id, q, x),
            full ==> d == 0 || forall|y: i32| #[trigger] wanted.count(y) == 0,
        decreases n - d,
    {
        if d == n {
            proof {
                wanted.lemma_empty_iff();
                let x = choose|x: i32| #[trigger] wanted.count(x) != 0;
                wanted.lemma_wf_count(x);
                assert(need(rows, item_id, q, bound, x) != 0);
                if full {
                    if d == 0 {
                        assert(craft_wanted(rows, h0, item_id, q, 0, x) == recipe_of(rows, item_id, q, x));
                        assert(flow(rows, unit(item_id, q), rows.len() as int, x) == 0);
                    }
                }
                if expands_within(rows, item_id, q, bound) {
                    let depth = choose|depth: nat| depth <= bound && #[trigger] is_depth(rows, item_id, q, depth) && fits(rows, item_id, q, depth);
                    lemma_empty_stays(rows, item_id, q, depth, bound);
                }
            }
            return Err(PlanError::CyclicRecipe);
        }
        let mut short = ItemList::new();
        proof {
            assert forall|x: i32| 0 <= #[trigger] short.count(x) <= wanted.count(x) by {
                wanted.lemma_wf_count(x);
            }
        }
        let m = wanted.len();
        let ghost hd = craft_level(rows, h0, item_id, q, d as nat).0;
        let ghost wd = craft_level(rows, h0, item_id, q, d as nat).1;
        proof {
            assert forall|x: i32| #[trigger] work.count(x) == if in_prefix(wanted@, 0, x) { hd(x) - taken(hd, wd, x) } else { hd(x) } by {
                assert(work.count(x) == crafted_held(rows, h0, item_id, q, d as nat, x));
            }
        }
        let mut i: usize = 0;
        while i < m
            invariant
                forall|x: i32| #[trigger] wanted.count(x) == wd(x),
                forall|x: i32| #[trigger] work.count(x) == if in_prefix(wanted@, i as int, x) { hd(x) - taken(hd, wd, x) } else { hd(x) },
                forall|x: i32| #[trigger] short.count(x) == if in_prefix(wanted@, i as int, x) { shortfall(rows, hd, wd)(x) } else { 0 },
                rows == data.recipe_rows(),
                data.wf(),
                old(inventory).wf(),
                inventory@ == old(inventory)@,
                m == wanted@.len(),
                wanted.wf(),
                i <= m,
                work.wf(),
                short.wf(),
                touched@.no_duplicates(),
                forall|x: i32| #[trigger] wanted.count(x) > 0 ==> is_ingredient(rows, x),
                forall|j: int| i <= j < m ==> #[trigger] short.count(wanted@[j].0) == 0,
                forall|x: i32| 0 <= #[trigger] short.count(x) <= wanted.count(x),
                forall|x: i32| 0 <= #[trigger] work.count(x) <= old(inventory).count(x),
                forall|x: i32| !is_ingredient(rows, x) ==> #[trigger] work.count(x) == old(inventory).count(x),
                forall|x: i32| #[trigger] work.count(x) != old(inventory).count(x) ==> touched@.contains(x),
            decreases m - i,
        {
            let (x, needed) = wanted.entry(i);
            proof {
                crate::item_list::lemma_count_at(wanted@, i as int);
                work.lemma_wf_count(x);
                assert(wanted.count(x) == needed);
                assert(is_ingredient(rows, x));
                if in_prefix(wanted@, i as int, x) {
                    let j = choose|j: int| 0 <= j < i && #[trigger] wanted@[j].0 == x;
                    assert(wanted@[j].0 < wanted@[i as int].0);
                }
                assert(work.count(x) == hd(x));
                assert(wd(x) == needed);
            }
            let ghost w0 = work;
            let ghost s0 = short;
            let held = work.get(x);
            let take: i16 = if held < needed { held } else { needed };
            if take > 0 {
                work.set_item(x, held - take);
                add_distinct(&mut touched, x);
            }
            let rest: i16 = needed - take;
            if rest > 0 && data.has_recipe(x) {
                short.set_item(x, rest);
            }
            proof {
                assert forall|y: i32| #[trigger] in_prefix(wanted@, i + 1, y) == (in_prefix(wanted@, i as int, y) || y == x) by {
                    if y == x {
                        assert(wanted@[i as int].0 == x);
                    }
                    if in_prefix(wanted@, i + 1, y) && y != x {
                        let j = choose|j: int| 0 <= j < i + 1 && #[trigger] wanted@[j].0 == y;
                        assert(j < i);
                    }
                }
                assert(take as int == taken(hd, wd, x));
                assert forall|y: i32| #[trigger] work.count(y) == if in_prefix(wanted@, i + 1, y) { hd(y) - taken(hd, wd, y) } else { hd(y) } by {
                    if y != x {
                        assert(work.count(y) == w0.count(y));
                    }
                }
                assert forall|y: i32| #[trigger] short.count(y) == if in_prefix(wanted@, i + 1, y) { shortfall(rows, hd, wd)(y) } else { 0 } by {
                    if y != x {
                        assert(short.count(y) == s0.count(y));
                    } else {
                        assert(s0.count(x) == 0) by {
                            assert(!in_prefix(wanted@, i as int, x));
                        }
                    }
                }
                assert forall|j: int| i + 1 <= j < m implies #[trigger] short.count(wanted@[j].0) == 0 by {
                    assert(wanted@[i as int].0 < wanted@[j].0);
                }
                assert forall|y: i32| 0 <= #[trigger] short.count(y) <= wanted.count(y) by {
                    short.lemma_wf_count(y);
                }
            }
            i += 1;
        }
        let ghost within = level(rows, item_id, q, (d + 1) as nat);
        proof {
            assert forall|x: i32| #[trigger] work.count(x) == crafted_held(rows, h0, item_id, q, (d + 1) as nat, x) by {
                wanted.lemma_wf_count(x);
                work.lemma_wf_count(x);
                if !in_prefix(wanted@, m as int, x) {
                    assert forall|j: int| 0 <= j < wanted@.len() implies wanted@[j].0 != x by {
                        if wanted@[j].0 == x {
                            assert(in_prefix(wanted@, m as int, x));
                        }
                    }
                    crate::item_list::lemma_count_absent(wanted@, x);
                    assert(wd(x) == 0);
                    assert(hd(x) >= 0);
                }
            }
            assert forall|x: i32| #[trigger] counts(short)(x) == shortfall(rows, hd, wd)(x) by {
                assert(counts(short)(x) == short.count(x));
                if !in_prefix(wanted@, m as int, x) {
                    assert forall|j: int| 0 <= j < wanted@.len() implies wanted@[j].0 != x by {
                        if wanted@[j].0 == x {
                            assert(in_prefix(wanted@, m as int, x));
                        }
                    }
                    crate::item_list::lemma_count_absent(wanted@, x);
                    assert(wd(x) == 0);
                    assert(hd(x) >= 0) by {
                        work.lemma_wf_count(x);
                    }
                }
            }
            assert forall|y: i32| 0 <= #[trigger] short.count(y) <= within(y) by {
                short.lemma_wf_count(y);
                assert(wanted.count(y) <= need(rows, item_id, q, (d + 1) as nat, y));
            }
        }
        proof {
            if full {
                lemma_full_stock_no_shortfall(rows, h0, item_id, q);
                assert forall|j: int| 0 <= j < rows.len() implies #[trigger] counts(short)(rows[j].result_item_id) == 0 by {
                    assert(counts(short)(rows[j].result_item_id) == shortfall(rows, hd, wd)(rows[j].result_item_id));
                }
                assert forall|y: i32| #[trigger] flow(rows, counts(short), rows.len() as int, y) == 0 by {
                    crate::recipes::lemma_flow_unwanted(rows, counts(short), rows.len() as int, y);
                }
            }
        }
        let next = match expand_shortfalls(data, &short, Ghost(within)) {
            Ok(l) => l,
            Err(e) => {
                proof {
                    let y = choose|y: i32| #[trigger] flow(rows, within, rows.len() as int, y) > QUANTITY_MAX;
                    assert(need(rows, item_id, q, (d + 2) as nat, y) > QUANTITY_MAX);
                    lemma_too_large_at(rows, item_id, q, (d + 2) as nat, y, bound);
                }
                return Err(e);
            },
        };
        proof {
            assert forall|y: i32| #[trigger] next.count(y) > 0 implies is_ingredient(rows, y) by {
                lemma_flow_source(rows, counts(short), rows.len() as int, y);
                let j = choose|j: int| 0 <= j < rows.len() && j < rows.len() && rows[j].ingredient_item_id == y && #[trigger] counts(short)(rows[j].result_item_id) != 0;
                assert(rows[j].ingredient_item_id == y);
            }
            assert forall|y: i32| #[trigger] next.count(y) <= need(rows, item_id, q, (d + 2) as nat, y) by {
                assert forall|z: i32| 0 <= #[trigger] counts(short)(z) <= within(z) by {
                    assert(counts(short)(z) == short.count(z));
                }
                lemma_flow_le(rows, counts(short), within, rows.len() as int, y);
            }
            assert forall|y: i32| #[trigger] next.count(y) == craft_wanted(rows, h0, item_id, q, (d + 1) as nat, y) by {
                assert forall|j: int| 0 <= j < rows.len() implies #[trigger] counts(short)(rows[j].result_item_id) == shortfall(rows, hd, wd)(rows[j].result_item_id) by {}
                lemma_flow_congruent(rows, counts(short), shortfall(rows, hd, wd), rows.len() as int, y);
            }
        }
        wanted = next;
        d += 1;
    }
    proof {
        wanted.lemma_empty_iff();
        assert forall|y: i32| #[trigger] craft_wanted(rows, h0, item_id, q, d as nat, y) == 0 by {
            assert(wanted.count(y) == 0);
        }
        assert(craft_done(rows, h0, item_id, q, d as nat));
    }
    let mut records: Vec<UserIngredient> = Vec::new();
    let mut k: usize = 0;
    while k < touched.len()
        invariant
            k <= touched@.len(),
            work.wf(),
            inventory@ == old(inventory)@,
            old(inventory).wf(),
            forall|x: i32| #[trigger] work.count(x) != old(inventory).count(x) ==> touched@.contains(x),
            rows == data.recipe_rows(),
            h0 == counts(*old(inventory)),
            q == quantity as int,
            d <= n,
            n == rows.len(),
            craft_done(rows, h0, item_id, q, d as nat),
            forall|x: i32| #[trigger] work.count(x) == crafted_held(rows, h0, item_id, q, d as nat, x),
            records@.len() <= k,
            forall|i: int| 0 <= i < records@.len() ==>
                (#[trigger] records@[i]).quantity == work.count(records@[i].item_id)
                && records@[i].quantity != old(inventory).count(records@[i].item_id),
            forall|j: int| 0 <= j < k && #[trigger] work.count(touched@[j]) != old(inventory).count(touched@[j]) ==>
                exists|i: int| 0 <= i < records@.len() && #[trigger] records@[i].item_id == touched@[j],
        decreases touched@.len() - k,
    {
        let x = touched[k];
        let now = work.get(x);
        let before = inventory.get(x);
        let ghost rec0 = records@;
        if now != before {
            records.push(UserIngredient { item_id: x, quantity: now });
            proof {
                assert(records@[records@.len() - 1].item_id == x);
            }
        }
        proof {
            assert forall|j: int| 0 <= j < k + 1 && #[trigger] work.count(touched@[j]) != old(inventory).count(touched@[j]) implies
                exists|i: int| 0 <= i < records@.len() && #[trigger] records@[i].item_id == touched@[j] by {
                if j < k {
                    let i = choose|i: int| 0 <= i < rec0.len() && #[trigger] rec0[i].item_id == touched@[j];
                    assert(records@[i] == rec0[i]);
                } else {
                    assert(records@[records@.len() - 1].item_id == touched@[j]);
                }
            }
        }
        k += 1;
    }
    *inventory = work;
    proof {
        assert(craft_done(rows, h0, item_id, q, d as nat));
        assert forall|x: i32| #[trigger] inventory.count(x) == crafted_held(rows, h0, item_id, q, d as nat, x) by {}
        assert forall|x: i32| #[trigger] inventory.count(x) != old(inventory).count(x) implies
            exists|i: int| 0 <= i < records@.len() && #[trigger] records@[i].item_id == x by {
            assert(touched@.contains(x));
            let j = choose|j: int| 0 <= j < touched@.len() && touched@[j] == x;
            assert(work.count(touched@[j]) != old(inventory).count(touched@[j]));
            assert(0 <= j < k);
            assert(recorded(records@, x));
        }
    }
    Ok(records)
}

/// The crafted items of depths `lo` up to `hi` (excluded) of the tree of
/// `q` units of `y`, counted for `x`.
pub open spec fn steps_between(r: Seq<Recipe>, y: i32, q: int, lo: int, hi: int, x: i32) -> int
    decreases hi - lo,
{
    if lo >= hi {
        0
    } else {
        step_count(r, y, q, lo as nat, x) + steps_between(r, y, q, lo + 1, hi, x)
    }
}

/// What breaking `q` units of the crafted item `y` fully down yields of `x`:
/// its base ingredients and every crafted item strictly between it and them.
pub open spec fn breakdown(r: Seq<Recipe>, y: i32, q: int, x: i32) -> int {
    let depth = choose|depth: nat| is_depth(r, y, q, depth);
    base_upto(r, y, q, depth, x) + steps_between(r, y, q, 1, depth - 1, x)
}

/// The first `k` entries of an inventory, each counted for `x` with the
/// breakdown of the crafted ones.
pub open spec fn calculated(r: Seq<Recipe>, inv: Seq<(i32, i16)>, k: int, x: i32) -> int
    decreases k,
{
    if k <= 0 || k > inv.len() {
        0
    } else {
        calculated(r, inv, k - 1, x) + (if inv[k - 1].0 == x { inv[k - 1].1 as int } else { 0 }) + if recipe_has(r, inv[k - 1].0) {
            breakdown(r, inv[k - 1].0, inv[k - 1].1 as int, x)
        } else {
            0
        }
    }
}

/// Every crafted item among the first `k` entries of an inventory expands
/// within the bound that rules out cycles, with every quantity fitting.
pub open spec fn all_expand(r: Seq<Recipe>, inv: Seq<(i32, i16)>, k: int) -> bool {
    forall|j: int| 0 <= j < k && #[trigger] recipe_has(r, inv[j].0) ==> expands_within(r, inv[j].0, inv[j].1 as int, (r.len() + 1) as nat)
}

pub proof fn lemma_steps_between_mono(r: Seq<Recipe>, y: i32, q: int, lo: int, lo2: int, hi: int, x: i32)
    requires
        rows_positive(r),
        q >= 0,
        0 <= lo <= lo2,
    ensures
        0 <= steps_between(r, y, q, lo2, hi, x) <= steps_between(r, y, q, lo, hi, x),
    decreases hi - lo,
{
    if lo < hi {
        lemma_need_nonneg(r, y, q, lo as nat);
        assert(step_count(r, y, q, lo as nat, x) >= 0);
        if lo < lo2 {
            lemma_steps_between_mono(r, y, q, lo + 1, lo2, hi, x);
        } else {
            lemma_steps_between_mono(r, y, q, lo + 1, lo + 1, hi, x);
        }
    }
}

pub proof fn lemma_breakdown_nonneg(r: Seq<Recipe>, y: i32, q: int, x: i32)
    requires
        rows_positive(r),
        q >= 0,
    ensures
        breakdown(r, y, q, x) >= 0,
{
    let depth = choose|depth: nat| is_depth(r, y, q, depth);
    lemma_base_monotone(r, y, q, 0, depth, x);
    lemma_steps_between_mono(r, y, q, 1, 1, depth - 1, x);
}

pub proof fn lemma_calculated_monotone(r: Seq<Recipe>, inv: Seq<(i32, i16)>, j: int, k: int, x: i32)
    requires
        rows_positive(r),
        crate::item_list::sorted_positive(inv),
        0 <= j <= k <= inv.len(),
    ensures
        calculated(r, inv, j, x) <= calculated(r, inv, k, x),
    decreases k - j,
{
    if j < k {
        lemma_calculated_monotone(r, inv, j, k - 1, x);
        lemma_breakdown_nonneg(r, inv[k - 1].0, inv[k - 1].1 as int, x);
        assert(inv[k - 1].1 > 0);
    }
}

/// A partial total above the largest stack makes the whole total too large.
proof fn lemma_total_exceeds(r: Seq<Recipe>, inv: Seq<(i32, i16)>, k: int, x: i32, v: int)
    requires
        rows_positive(r),
        crate::item_list::sorted_positive(inv),
        0 <= k < inv.len(),
        v > QUANTITY_MAX,
        v <= calculated(r, inv, k + 1, x),
    ensures
        calculated(r, inv, inv.len() as int, x) > QUANTITY_MAX,
{
    lemma_calculated_monotone(r, inv, k + 1, inv.len() as int, x);
}

/// The inventory together with the full breakdown of every crafted item in
/// it: what it would amount to taken apart down to base ingredients, each
/// intermediate step included.
pub fn calculated_inventory(inventory: &ItemList, data: &GameData) -> (r: Result<ItemList, PlanError>)
    requires
        inventory.wf(),
        data.wf(),
    ensures
        r is Ok <==> all_expand(data.recipe_rows(), inventory@, inventory@.len() as int)
            && forall|x: i32| #[trigger] calculated(data.recipe_rows(), inventory@, inventory@.len() as int, x) <= QUANTITY_MAX,
        r matches Ok(l) ==> l.wf() && forall|x: i32| #[trigger] l.count(x) == calculated(data.recipe_rows(), inventory@, inventory@.len() as int, x),
        r matches Err(e) ==> e == PlanError::QuantityOverflow || e == PlanError::CyclicRecipe,
{
    let ghost rows = data.recipe_rows();
    let mut total = ItemList::new();
    let n = inventory.len();
    let mut k: usize = 0;
    while k < n
        invariant
            rows == data.recipe_rows(),
            data.wf(),
            n == inventory@.len(),
            inventory.wf(),
            k <= n,
            total.wf(),
            rows_positive(rows),
            all_expand(rows, inventory@, k as int),
            forall|x: i32| #[trigger] total.count(x) == calculated(rows, inventory@, k as int, x),
        decreases n - k,
    {
        let (y, q) = inventory.entry(k);
        let ghost t0 = total;
        proof {
            crate::item_list::lemma_count_at(inventory@, k as int);
            assert(inventory@[k as int] == (y, q));
            lemma_breakdown_nonneg(rows, y, q as int, y);
        }
        match total.add_item(y, q) {
            Ok(()) => {},
            Err(e) => {
                proof {
                    lemma_total_exceeds(rows, inventory@, k as int, y, t0.count(y) + q);
                }
                return Err(e);
            },
        }
        let ghost t1 = total;
        if data.has_recipe(y) {
            let (base, steps) = match data.full_recipe(y, q) {
                Ok(pair) => pair,
                Err(e) => {
                    proof {
                        assert(recipe_has(rows, inventory@[k as int].0));
                    }
                    return Err(e);
                },
            };
            proof {
                crate::item_list::lemma_count_at(inventory@, k as int);
            }
            let ghost depth: nat = (steps@.len() + 2) as nat;
            proof {
                assert(is_expansion(rows, y, q as int, base, steps@));
                let c = choose|d: nat| is_depth(rows, y, q as int, d);
                lemma_depth_unique(rows, y, q as int, c, depth);
            }
            proof {
                assert forall|x: i32| #[trigger] breakdown(rows, y, q as int, x) == base_upto(rows, y, q as int, depth, x) + steps_between(rows, y, q as int, 1, depth - 1, x) by {}
            }
            match total.add_items(&base) {
                Ok(()) => {},
                Err(e) => {
                    proof {
                        let x = choose|x: i32| !(#[trigger] t1.count(x) + base.count(x) <= QUANTITY_MAX);
                        lemma_steps_between_mono(rows, y, q as int, 1, 1, depth - 1, x);
                        lemma_total_exceeds(rows, inventory@, k as int, x, t1.count(x) + base.count(x));
                    }
                    return Err(e);
                },
            }
            let ghost t2 = total;
            let m = steps.len();
            let mut i: usize = 0;
            while i < m
                invariant
                    m == steps@.len(),
                    depth == m + 2,
                    i <= m,
                    total.wf(),
                    is_expansion(rows, y, q as int, base, steps@),
                    recipe_has(rows, y),
                    rows == data.recipe_rows(),
                    rows_positive(rows),
                    q > 0,
                    k < n,
                    n == inventory@.len(),
                    inventory.wf(),
                    inventory@[k as int] == (y, q),
                    forall|x: i32| #[trigger] t2.count(x) + steps_between(rows, y, q as int, 1, depth - 1, x) == calculated(rows, inventory@, k + 1, x),
                    forall|x: i32| #[trigger] total.count(x) == t2.count(x) + steps_between(rows, y, q as int, depth - 1 - i, depth - 1, x),
                decreases m - i,
            {
                proof {
                    assert(steps@[i as int].wf());
                }
                let ghost t3 = total;
                match total.add_items(&steps[i]) {
                    Ok(()) => {},
                    Err(e) => {
                        proof {
                            let x = choose|x: i32| !(#[trigger] t3.count(x) + steps@[i as int].count(x) <= QUANTITY_MAX);
                            assert(steps@[i as int].count(x) == step_count(rows, y, q as int, (depth - 2 - i) as nat, x));
                            lemma_steps_between_mono(rows, y, q as int, 1, depth - 2 - i, depth - 1, x);
                            lemma_total_exceeds(rows, inventory@, k as int, x, t3.count(x) + steps@[i as int].count(x));
                        }
                        return Err(e);
                    },
                }
                proof {
                    assert forall|x: i32| #[trigger] total.count(x) == t2.count(x) + steps_between(rows, y, q as int, depth - 1 - (i + 1), depth - 1, x) by {
                        assert(steps@[i as int].count(x) == step_count(rows, y, q as int, (depth - 2 - i) as nat, x));
                    }
                }
                i += 1;
            }
        }
        proof {
            assert forall|x: i32| #[trigger] total.count(x) == calculated(rows, inventory@, k + 1, x) by {
                assert(inventory@[k as int] == (y, q));
            }
            assert forall|j: int| 0 <= j < k + 1 && #[trigger] recipe_has(rows, inventory@[j].0) implies
                expands_within(rows, inventory@[j].0, inventory@[j].1 as int, (rows.len() + 1) as nat) by {
                if j < k {
                    assert(all_expand(rows, inventory@, k as int));
                }
            }
        }
        k += 1;
    }
    proof {
        assert forall|x: i32| #[trigger] calculated(rows, inventory@, n as int, x) <= QUANTITY_MAX by {
            total.lemma_wf_count(x);
        }
    }
    Ok(total)
}

} // verus!
