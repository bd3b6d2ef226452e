use vstd::prelude::*;

verus! {

use crate::game_data::{GameData, is_empty_expansion, is_expansion, recipe_of, unit};
use crate::item_list::{ItemList, counts};
use crate::models::Recipe;
use crate::recipes::{
    base_upto, flow, lemma_base_monotone, lemma_base_scale, lemma_depth_scale,
    lemma_depth_unique, lemma_flow_congruent, lemma_flow_positive, lemma_flow_source,
    lemma_empty_stays, lemma_need_nonneg, lemma_need_scale, level, level_empty, need, recipe_has,
    rows_positive, step_count,
};

/// The depth of the tree that an expansion describes.
pub open spec fn depth_of(data: &GameData, root: i32, steps: Seq<ItemList>) -> nat {
    if recipe_has(data.recipe_rows(), root) { steps.len() + 2 } else { 1 }
}

/// Expanding one unit of an item twice and adding up the base ingredients
/// gives the base ingredients of two units expanded once; every step
/// doubles as well.
pub proof fn law_two_units_are_one_unit_twice(
    data: &GameData,
    root: i32,
    base1: ItemList,
    steps1: Seq<ItemList>,
    base2: ItemList,
    steps2: Seq<ItemList>,
)
    requires
        data.wf(),
        is_expansion(data.recipe_rows(), root, 1, base1, steps1),
        is_expansion(data.recipe_rows(), root, 2, base2, steps2),
    ensures
        forall|x: i32| #[trigger] base2.count(x) == base1.count(x) + base1.count(x),
        steps2.len() == steps1.len(),
        forall|i: int, x: i32| 0 <= i < steps1.len() ==>
            #[trigger] steps2[i].count(x) == steps1[i].count(x) + steps1[i].count(x),
{
    let r = data.recipe_rows();
    let d1 = depth_of(data, root, steps1);
    let d2 = depth_of(data, root, steps2);
    lemma_depth_scale(r, root, 2, d2);
    lemma_depth_unique(r, root, 1, d1, d2);
    assert forall|x: i32| #[trigger] base2.count(x) == base1.count(x) + base1.count(x) by {
        lemma_base_scale(r, root, 2, d1, x);
    }
    assert forall|i: int, x: i32| 0 <= i < steps1.len() implies
        #[trigger] steps2[i].count(x) == steps1[i].count(x) + steps1[i].count(x) by {
        lemma_need_scale(r, root, 2, (d1 - 2 - i) as nat);
        assert(steps1[i].count(x) == step_count(r, root, 1, (d1 - 2 - i) as nat, x));
    }
}

/// Every step of an expansion holds some item, and the deepest step is
/// crafted from base ingredients alone.
pub proof fn law_steps_are_levels(data: &GameData, root: i32, q: int, base: ItemList, steps: Seq<ItemList>)
    requires
        data.wf(),
        q > 0,
        is_expansion(data.recipe_rows(), root, q, base, steps),
    ensures
        forall|i: int| 0 <= i < steps.len() ==> !#[trigger] steps[i].is_empty_spec(),
        steps.len() > 0 ==> forall|k: int| 0 <= k < data.recipe_rows().len()
            && #[trigger] steps[0].count(data.recipe_rows()[k].result_item_id) > 0
            ==> !recipe_has(data.recipe_rows(), data.recipe_rows()[k].ingredient_item_id),
{
    let r = data.recipe_rows();
    let depth = depth_of(data, root, steps);
    assert forall|i: int| 0 <= i < steps.len() implies !#[trigger] steps[i].is_empty_spec() by {
        let l = (depth - 2 - i) as nat;
        assert(!level_empty(r, root, q, l + 1));
        let x = choose|x: i32| #[trigger] need(r, root, q, l + 1, x) != 0;
        let prev = level(r, root, q, l);
        lemma_flow_source(r, prev, r.len() as int, x);
        let j = choose|j: int| 0 <= j < r.len() && j < r.len() && r[j].ingredient_item_id == x && #[trigger] prev(r[j].result_item_id) != 0;
        let y = r[j].result_item_id;
        lemma_need_nonneg(r, root, q, l);
        assert(need(r, root, q, l, y) > 0);
        assert(recipe_has(r, y));
        assert(steps[i].count(y) == step_count(r, root, q, l, y));
        assert(steps[i].count(y) != 0);
    }
    if steps.len() > 0 {
        let l = (depth - 2) as nat;
        assert forall|k: int| 0 <= k < r.len() && #[trigger] steps[0].count(r[k].result_item_id) > 0
            implies !recipe_has(r, r[k].ingredient_item_id) by {
            let prev = level(r, root, q, l);
            lemma_need_nonneg(r, root, q, l);
            lemma_need_nonneg(r, root, q, l + 1);
            assert forall|y: i32| #[trigger] prev(y) >= 0 by {
                assert(need(r, root, q, l, y) >= 0);
            }
            assert(steps[0].count(r[k].result_item_id) == step_count(r, root, q, l, r[k].result_item_id));
            lemma_flow_positive(r, prev, k);
            let z = r[k].ingredient_item_id;
            assert(need(r, root, q, l + 1, z) > 0);
            if recipe_has(r, z) {
                let k2 = choose|k2: int| 0 <= k2 < r.len() && #[trigger] r[k2].result_item_id == z;
                let prev2 = level(r, root, q, l + 1);
                assert forall|y: i32| #[trigger] prev2(y) >= 0 by {
                    assert(need(r, root, q, l + 1, y) >= 0);
                }
                lemma_flow_positive(r, prev2, k2);
                assert(need(r, root, q, depth, r[k2].ingredient_item_id) > 0);
                assert(level_empty(r, root, q, depth));
            }
        }
    }
}

/// Each step is what the recipes of the step below it in the list (one
/// level closer to the root) ask for, counted on the items that are crafted;
/// what they ask for among the base ingredients is covered by the base
/// ingredients; the last step is what the root's own recipe asks for.
pub proof fn law_steps_feed_each_other(data: &GameData, root: i32, q: int, base: ItemList, steps: Seq<ItemList>)
    requires
        data.wf(),
        q > 0,
        is_expansion(data.recipe_rows(), root, q, base, steps),
    ensures
        forall|i: int, x: i32| 0 <= i && i + 1 < steps.len() && recipe_has(data.recipe_rows(), x) ==>
            #[trigger] steps[i].count(x) == flow(data.recipe_rows(), counts(steps[i + 1]), data.recipe_rows().len() as int, x),
        forall|i: int, x: i32| 0 <= i && i + 1 < steps.len() && !recipe_has(data.recipe_rows(), x) ==>
            #[trigger] flow(data.recipe_rows(), counts(steps[i + 1]), data.recipe_rows().len() as int, x) <= base.count(x),
        steps.len() > 0 ==> forall|x: i32| recipe_has(data.recipe_rows(), x) ==>
            #[trigger] steps[steps.len() - 1].count(x) == recipe_of(data.recipe_rows(), root, q, x),
{
    let r = data.recipe_rows();
    let depth = depth_of(data, root, steps);
    assert forall|i: int, x: i32| 0 <= i && i + 1 < steps.len() implies
        #[trigger] flow(r, counts(steps[i + 1]), r.len() as int, x) == need(r, root, q, (depth - 2 - i) as nat, x) by {
        let l = (depth - 2 - i - 1) as nat;
        let prev = level(r, root, q, l);
        assert forall|j: int| 0 <= j < r.len() implies #[trigger] counts(steps[i + 1])(r[j].result_item_id) == prev(r[j].result_item_id) by {
            assert(recipe_has(r, r[j].result_item_id));
            assert(steps[i + 1].count(r[j].result_item_id) == step_count(r, root, q, l, r[j].result_item_id));
        }
        lemma_flow_congruent(r, counts(steps[i + 1]), prev, r.len() as int, x);
    }
    assert forall|i: int, x: i32| 0 <= i && i + 1 < steps.len() && recipe_has(r, x) implies
        #[trigger] steps[i].count(x) == flow(r, counts(steps[i + 1]), r.len() as int, x) by {
        assert(steps[i].count(x) == step_count(r, root, q, (depth - 2 - i) as nat, x));
    }
    assert forall|i: int, x: i32| 0 <= i && i + 1 < steps.len() && !recipe_has(r, x) implies
        #[trigger] flow(r, counts(steps[i + 1]), r.len() as int, x) <= base.count(x) by {
        let l = (depth - 2 - i) as nat;
        lemma_base_monotone(r, root, q, l + 1, depth, x);
        lemma_base_monotone(r, root, q, 0, l, x);
    }
    if steps.len() > 0 {
        assert forall|x: i32| recipe_has(r, x) implies
            #[trigger] steps[steps.len() - 1].count(x) == recipe_of(r, root, q, x) by {
            assert(steps[steps.len() - 1].count(x) == step_count(r, root, q, 1, x));
            let prev = level(r, root, q, 0);
            assert forall|j: int| 0 <= j < r.len() implies #[trigger] prev(r[j].result_item_id) == unit(root, q)(r[j].result_item_id) by {}
            lemma_flow_congruent(r, prev, unit(root, q), r.len() as int, x);
        }
    }
}

/// A quantity of zero leaves nothing behind: once the count of an item in
/// a list is zero, as `set_item`, `apply_delta` and `WishList::remove` leave
/// it when they reach zero, no entry of the list names that item.
pub proof fn law_zero_quantity_has_no_entry(l: ItemList, id: i32)
    requires
        l.wf(),
        l.count(id) == 0,
    ensures
        forall|j: int| 0 <= j < l@.len() ==> #[trigger] l@[j].0 != id,
{
    l.lemma_wf_count(id);
}

/// What the expansions of steps `lo` and on ask for of `x`, summed.
pub open spec fn expansions_from(r: Seq<Recipe>, steps: Seq<ItemList>, lo: int, x: i32) -> int
    decreases steps.len() - lo,
{
    if lo >= steps.len() || lo < 0 {
        0
    } else {
        flow(r, counts(steps[lo]), r.len() as int, x) + expansions_from(r, steps, lo + 1, x)
    }
}

/// For a crafted item, the base ingredients are exactly the raw materials
/// that its own recipe asks for, plus those that the recipe of every step
/// asks for: each base ingredient is counted at every level that consumes
/// it, and nothing else is in the base.
pub proof fn law_base_is_raw_parts_of_steps(data: &GameData, root: i32, q: int, base: ItemList, steps: Seq<ItemList>)
    requires
        data.wf(),
        q > 0,
        recipe_has(data.recipe_rows(), root),
        is_expansion(data.recipe_rows(), root, q, base, steps),
    ensures
        forall|x: i32| !recipe_has(data.recipe_rows(), x) ==>
            #[trigger] base.count(x) == recipe_of(data.recipe_rows(), root, q, x) + expansions_from(data.recipe_rows(), steps, 0, x),
        forall|x: i32| recipe_has(data.recipe_rows(), x) ==> #[trigger] base.count(x) == 0,
{
    let r = data.recipe_rows();
    let len = steps.len() as int;
    let depth = depth_of(data, root, steps);
    assert forall|x: i32| !recipe_has(r, x) implies
        #[trigger] base.count(x) == recipe_of(r, root, q, x) + expansions_from(r, steps, 0, x) by {
        assert(x != root);
        let prev0 = level(r, root, q, 0);
        assert forall|j: int| 0 <= j < r.len() implies #[trigger] unit(root, q)(r[j].result_item_id) == prev0(r[j].result_item_id) by {}
        lemma_flow_congruent(r, unit(root, q), prev0, r.len() as int, x);
        lemma_base_prefix(r, root, q, base, steps, len, x);
        assert(base.count(x) == base_upto(r, root, q, depth, x));
    }
    assert forall|x: i32| recipe_has(r, x) implies #[trigger] base.count(x) == 0 by {
        lemma_base_zero_for_crafted(r, root, q, depth, x);
    }
}

/// The base part of the first `m + 2` levels is the root's recipe plus the
/// expansions of the `m` steps closest to the root.
proof fn lemma_base_prefix(r: Seq<Recipe>, root: i32, q: int, base: ItemList, steps: Seq<ItemList>, m: int, x: i32)
    requires
        0 <= m <= steps.len(),
        recipe_has(r, root),
        !recipe_has(r, x),
        is_expansion(r, root, q, base, steps),
    ensures
        base_upto(r, root, q, (m + 2) as nat, x) == recipe_of(r, root, q, x) + expansions_from(r, steps, steps.len() - m, x),
    decreases m,
{
    let len = steps.len() as int;
    let depth = len + 2;
    if m == 0 {
        assert(x != root);
        let prev0 = level(r, root, q, 0);
        assert forall|j: int| 0 <= j < r.len() implies #[trigger] unit(root, q)(r[j].result_item_id) == prev0(r[j].result_item_id) by {}
        lemma_flow_congruent(r, unit(root, q), prev0, r.len() as int, x);
        assert(base_upto(r, root, q, 0, x) == 0);
        assert(need(r, root, q, 0, x) == 0);
        assert(base_upto(r, root, q, 1, x) == 0);
        assert(need(r, root, q, 1, x) == recipe_of(r, root, q, x));
        assert(expansions_from(r, steps, len, x) == 0);
    } else {
        lemma_base_prefix(r, root, q, base, steps, m - 1, x);
        let i = len - m;
        let l = m as nat;
        let prev = level(r, root, q, l);
        assert forall|j: int| 0 <= j < r.len() implies #[trigger] counts(steps[i])(r[j].result_item_id) == prev(r[j].result_item_id) by {
            assert(recipe_has(r, r[j].result_item_id));
            assert(steps[i].count(r[j].result_item_id) == step_count(r, root, q, (depth - 2 - i) as nat, r[j].result_item_id));
        }
        lemma_flow_congruent(r, counts(steps[i]), prev, r.len() as int, x);
        assert(need(r, root, q, (m + 1) as nat, x) == flow(r, counts(steps[i]), r.len() as int, x));
    }
}

proof fn lemma_base_zero_for_crafted(r: Seq<Recipe>, root: i32, q: int, d: nat, x: i32)
    requires
        recipe_has(r, x),
    ensures
        base_upto(r, root, q, d, x) == 0,
    decreases d,
{
    if d > 0 {
        lemma_base_zero_for_crafted(r, root, q, (d - 1) as nat, x);
    }
}

/// `c` lists recipe rows that chain from `root` down to `x`: the first row
/// crafts the root, each next row crafts the previous row's ingredient, and
/// the last row's ingredient is `x`.
pub open spec fn chain_to(r: Seq<Recipe>, root: i32, c: Seq<int>, x: i32) -> bool {
    &&& c.len() >= 1
    &&& forall|i: int| 0 <= i < c.len() ==> 0 <= #[trigger] c[i] < r.len()
    &&& r[c[0]].result_item_id == root
    &&& forall|i: int| 0 <= i < c.len() - 1 ==> r[#[trigger] c[i]].ingredient_item_id == r[c[i + 1]].result_item_id
    &&& r[c.last()].ingredient_item_id == x
}

proof fn lemma_need_has_chain(r: Seq<Recipe>, root: i32, q: int, d: nat, x: i32)
    requires
        rows_positive(r),
        q > 0,
        d >= 1,
        need(r, root, q, d, x) > 0,
    ensures
        exists|c: Seq<int>| c.len() == d && #[trigger] chain_to(r, root, c, x),
    decreases d,
{
    let prev = level(r, root, q, (d - 1) as nat);
    lemma_flow_source(r, prev, r.len() as int, x);
    let j = choose|j: int| 0 <= j < r.len() && j < r.len() && r[j].ingredient_item_id == x && #[trigger] prev(r[j].result_item_id) != 0;
    let y = r[j].result_item_id;
    if d == 1 {
        assert(y == root);
        let c = seq![j];
        assert(chain_to(r, root, c, x));
    } else {
        lemma_need_nonneg(r, root, q, (d - 1) as nat);
        assert(need(r, root, q, (d - 1) as nat, y) > 0);
        lemma_need_has_chain(r, root, q, (d - 1) as nat, y);
        let c0 = choose|c0: Seq<int>| c0.len() == d - 1 && #[trigger] chain_to(r, root, c0, y);
        let c = c0.push(j);
        assert forall|i: int| 0 <= i < c.len() - 1 implies r[#[trigger] c[i]].ingredient_item_id == r[c[i + 1]].result_item_id by {
            if i < c.len() - 2 {
                assert(c[i] == c0[i] && c[i + 1] == c0[i + 1]);
            } else {
                assert(c[i] == c0.last());
            }
        }
        assert forall|i: int| 0 <= i < c.len() implies 0 <= #[trigger] c[i] < r.len() by {
            if i < c0.len() {
                assert(c[i] == c0[i]);
            }
        }
        assert(chain_to(r, root, c, x));
    }
}

proof fn lemma_chain_has_need(r: Seq<Recipe>, root: i32, q: int, c: Seq<int>, x: i32)
    requires
        rows_positive(r),
        q > 0,
        chain_to(r, root, c, x),
    ensures
        need(r, root, q, c.len() as nat, x) > 0,
    decreases c.len(),
{
    let k = c.last();
    let d = c.len() as nat;
    let prev = level(r, root, q, (d - 1) as nat);
    lemma_need_nonneg(r, root, q, (d - 1) as nat);
    assert forall|y: i32| #[trigger] prev(y) >= 0 by {
        assert(need(r, root, q, (d - 1) as nat, y) >= 0);
    }
    if c.len() == 1 {
        assert(k == c[0]);
        assert(prev(r[k].result_item_id) == q);
    } else {
        let c0 = c.drop_last();
        let y = r[k].result_item_id;
        assert(r[c[c.len() - 2]].ingredient_item_id == r[c[c.len() - 1]].result_item_id);
        assert forall|i: int| 0 <= i < c0.len() - 1 implies r[#[trigger] c0[i]].ingredient_item_id == r[c0[i + 1]].result_item_id by {
            assert(c0[i] == c[i] && c0[i + 1] == c[i + 1]);
            assert(r[c[i]].ingredient_item_id == r[c[i + 1]].result_item_id);
        }
        assert forall|i: int| 0 <= i < c0.len() implies 0 <= #[trigger] c0[i] < r.len() by {
            assert(c0[i] == c[i]);
        }
        assert(chain_to(r, root, c0, y));
        lemma_chain_has_need(r, root, q, c0, y);
    }
    lemma_flow_positive(r, prev, k);
}

/// For a crafted item the steps number one less than the longest chain of
/// recipe rows that leads down from it: some chain is that long, and none
/// is longer.
pub proof fn law_step_count_is_recipe_height(data: &GameData, root: i32, q: int, base: ItemList, steps: Seq<ItemList>)
    requires
        data.wf(),
        q > 0,
        recipe_has(data.recipe_rows(), root),
        is_expansion(data.recipe_rows(), root, q, base, steps),
    ensures
        exists|c: Seq<int>, x: i32| c.len() == steps.len() + 1 && #[trigger] chain_to(data.recipe_rows(), root, c, x),
        forall|c: Seq<int>, x: i32| #[trigger] chain_to(data.recipe_rows(), root, c, x) ==> c.len() <= steps.len() + 1,
{
    let r = data.recipe_rows();
    let depth = (steps.len() + 2) as nat;
    let top = (steps.len() + 1) as nat;
    assert(!level_empty(r, root, q, top));
    let x = choose|x: i32| #[trigger] need(r, root, q, top, x) != 0;
    lemma_need_nonneg(r, root, q, top);
    lemma_need_has_chain(r, root, q, top, x);
    assert forall|c: Seq<int>, y: i32| #[trigger] chain_to(r, root, c, y) implies c.len() <= steps.len() + 1 by {
        lemma_chain_has_need(r, root, q, c, y);
        if c.len() >= depth {
            lemma_empty_stays(r, root, q, depth, c.len() as nat);
        }
    }
}

/// Zero units of an item expand to as many steps as any positive
/// quantity of it does, all of them empty, with an empty base.
pub proof fn law_zero_units_keep_the_steps(
    data: &GameData,
    root: i32,
    q: int,
    base0: ItemList,
    steps0: Seq<ItemList>,
    base: ItemList,
    steps: Seq<ItemList>,
)
    requires
        data.wf(),
        q > 0,
        is_empty_expansion(data.recipe_rows(), root, base0, steps0),
        is_expansion(data.recipe_rows(), root, q, base, steps),
    ensures
        steps0.len() == steps.len(),
        forall|x: i32| #[trigger] base0.count(x) == 0,
        forall|i: int, x: i32| 0 <= i < steps0.len() ==> #[trigger] steps0[i].count(x) == 0,
{
    let r = data.recipe_rows();
    let d0: nat = if recipe_has(r, root) { (steps0.len() + 2) as nat } else { 1 };
    let d = depth_of(data, root, steps);
    lemma_depth_scale(r, root, q, d);
    lemma_depth_unique(r, root, 1, d0, d);
    base0.lemma_empty_iff();
    assert forall|i: int, x: i32| 0 <= i < steps0.len() implies #[trigger] steps0[i].count(x) == 0 by {
        assert(steps0[i].wf());
        steps0[i].lemma_empty_iff();
    }
}

/// Expanding `a` units and `b` units of an item and adding them up gives
/// the expansion of `a + b` units: the same number of steps, and every
/// base ingredient and every step quantity is the sum of the two.
pub proof fn law_quantities_add_up(
    data: &GameData,
    root: i32,
    a: int,
    b: int,
    base_a: ItemList,
    steps_a: Seq<ItemList>,
    base_b: ItemList,
    steps_b: Seq<ItemList>,
    base_ab: ItemList,
    steps_ab: Seq<ItemList>,
)
    requires
        data.wf(),
        a > 0,
        b > 0,
        is_expansion(data.recipe_rows(), root, a, base_a, steps_a),
        is_expansion(data.recipe_rows(), root, b, base_b, steps_b),
        is_expansion(data.recipe_rows(), root, a + b, base_ab, steps_ab),
    ensures
        steps_ab.len() == steps_a.len(),
        steps_ab.len() == steps_b.len(),
        forall|x: i32| #[trigger] base_ab.count(x) == base_a.count(x) + base_b.count(x),
        forall|i: int, x: i32| 0 <= i < steps_ab.len() ==>
            #[trigger] steps_ab[i].count(x) == steps_a[i].count(x) + steps_b[i].count(x),
{
    let r = data.recipe_rows();
    let da = depth_of(data, root, steps_a);
    let db = depth_of(data, root, steps_b);
    let dab = depth_of(data, root, steps_ab);
    lemma_depth_scale(r, root, a, da);
    lemma_depth_scale(r, root, b, db);
    lemma_depth_scale(r, root, a + b, dab);
    lemma_depth_unique(r, root, 1, da, dab);
    lemma_depth_unique(r, root, 1, db, dab);
    assert forall|x: i32| #[trigger] base_ab.count(x) == base_a.count(x) + base_b.count(x) by {
        lemma_base_scale(r, root, a, da, x);
        lemma_base_scale(r, root, b, da, x);
        lemma_base_scale(r, root, a + b, da, x);
        let u = base_upto(r, root, 1, da, x);
        assert((a + b) * u == a * u + b * u) by (nonlinear_arith);
    }
    assert forall|i: int, x: i32| 0 <= i < steps_ab.len() implies
        #[trigger] steps_ab[i].count(x) == steps_a[i].count(x) + steps_b[i].count(x) by {
        let l = (da - 2 - i) as nat;
        lemma_need_scale(r, root, a, l);
        lemma_need_scale(r, root, b, l);
        lemma_need_scale(r, root, a + b, l);
        assert(steps_a[i].count(x) == step_count(r, root, a, l, x));
        assert(steps_b[i].count(x) == step_count(r, root, b, l, x));
        assert(steps_ab[i].count(x) == step_count(r, root, a + b, l, x));
        let u = need(r, root, 1, l, x);
        assert((a + b) * u == a * u + b * u) by (nonlinear_arith);
    }
}

} // verus!
