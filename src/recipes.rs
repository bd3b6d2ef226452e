use vstd::prelude::*;

verus! {

use crate::item_list::QUANTITY_MAX;
use crate::models::Recipe;

/// Every recipe row asks for a positive quantity.
pub open spec fn rows_positive(r: Seq<Recipe>) -> bool {
    forall|k: int| 0 <= k < r.len() ==> #[trigger] r[k].quantity > 0
}

/// `item` is crafted: some row has it as its result.
pub open spec fn recipe_has(r: Seq<Recipe>, item: i32) -> bool {
    exists|k: int| 0 <= k < r.len() && #[trigger] r[k].result_item_id == item
}

/// Quantity of `x` that the first `k` rows ask for, when `prev` gives the
/// quantity of each item to be crafted.
pub open spec fn flow(r: Seq<Recipe>, prev: spec_fn(i32) -> int, k: int, x: i32) -> int
    decreases k,
{
    if k <= 0 || k > r.len() {
        0
    } else {
        flow(r, prev, k - 1, x) + if r[k - 1].ingredient_item_id == x {
            prev(r[k - 1].result_item_id) * r[k - 1].quantity
        } else {
            0
        }
    }
}

/// The quantity of each item at depth `d` of the crafting tree of `q` units
/// of `root`: depth 0 is the root itself, depth `d + 1` is what the rows ask
/// for to craft every item at depth `d`.
pub open spec fn level(r: Seq<Recipe>, root: i32, q: int, d: nat) -> spec_fn(i32) -> int
    decreases d,
{
    if d == 0 {
        |x: i32| if x == root { q } else { 0 }
    } else {
        let prev = level(r, root, q, (d - 1) as nat);
        |x: i32| flow(r, prev, r.len() as int, x)
    }
}

pub open spec fn need(r: Seq<Recipe>, root: i32, q: int, d: nat, x: i32) -> int {
    level(r, root, q, d)(x)
}

/// Depth `d` of the tree holds nothing.
pub open spec fn level_empty(r: Seq<Recipe>, root: i32, q: int, d: nat) -> bool {
    forall|x: i32| #[trigger] need(r, root, q, d, x) == 0
}

/// The tree has exactly `depth` non-empty levels.
pub open spec fn is_depth(r: Seq<Recipe>, root: i32, q: int, depth: nat) -> bool {
    &&& level_empty(r, root, q, depth)
    &&& forall|d: nat| d < depth ==> !#[trigger] level_empty(r, root, q, d)
}

/// Quantity of `x` in the crafted items at depth `d`.
pub open spec fn step_count(r: Seq<Recipe>, root: i32, q: int, d: nat, x: i32) -> int {
    if recipe_has(r, x) {
        need(r, root, q, d, x)
    } else {
        0
    }
}

/// Quantity of the base ingredient `x` over the depths below `d`.
pub open spec fn base_upto(r: Seq<Recipe>, root: i32, q: int, d: nat, x: i32) -> int
    decreases d,
{
    if d == 0 {
        0
    } else {
        base_upto(r, root, q, (d - 1) as nat, x) + if recipe_has(r, x) {
            0
        } else {
            need(r, root, q, (d - 1) as nat, x)
        }
    }
}

/// Every quantity of a tree of `depth` levels fits in a stack.
pub open spec fn fits(r: Seq<Recipe>, root: i32, q: int, depth: nat) -> bool {
    &&& forall|d: nat, x: i32| d <= depth ==> #[trigger] need(r, root, q, d, x) <= QUANTITY_MAX
    &&& forall|x: i32| #[trigger] base_upto(r, root, q, depth, x) <= QUANTITY_MAX
}

/// At depth `d`, the quantity of `x` or its base total so far is too large
/// for a stack.
pub open spec fn overflows_at(r: Seq<Recipe>, root: i32, q: int, d: nat, x: i32) -> bool {
    need(r, root, q, d, x) > QUANTITY_MAX || base_upto(r, root, q, d, x) > QUANTITY_MAX
}

/// The expansion of `q` units of `root` ends within `bound` levels and all
/// its quantities fit.
pub open spec fn expands_within(r: Seq<Recipe>, root: i32, q: int, bound: nat) -> bool {
    exists|depth: nat| depth <= bound && #[trigger] is_depth(r, root, q, depth) && fits(r, root, q, depth)
}

pub proof fn lemma_flow_nonneg(r: Seq<Recipe>, prev: spec_fn(i32) -> int, k: int, x: i32)
    requires
        rows_positive(r),
        forall|y: i32| #[trigger] prev(y) >= 0,
    ensures
        flow(r, prev, k, x) >= 0,
    decreases k,
{
    if 0 < k <= r.len() {
        lemma_flow_nonneg(r, prev, k - 1, x);
        let p = prev(r[k - 1].result_item_id);
        let m = r[k - 1].quantity as int;
        assert(p * m >= 0) by (nonlinear_arith)
            requires p >= 0, m > 0;
    }
}

pub proof fn lemma_need_nonneg(r: Seq<Recipe>, root: i32, q: int, d: nat)
    requires
        rows_positive(r),
        q >= 0,
    ensures
        forall|x: i32| #[trigger] need(r, root, q, d, x) >= 0,
    decreases d,
{
    if d > 0 {
        lemma_need_nonneg(r, root, q, (d - 1) as nat);
        let prev = level(r, root, q, (d - 1) as nat);
        assert forall|y: i32| #[trigger] prev(y) >= 0 by {
            assert(need(r, root, q, (d - 1) as nat, y) >= 0);
        }
        assert forall|x: i32| #[trigger] need(r, root, q, d, x) >= 0 by {
            lemma_flow_nonneg(r, prev, r.len() as int, x);
        }
    }
}

/// Partial sums of the rows never exceed the full sum.
pub proof fn lemma_flow_monotone(r: Seq<Recipe>, prev: spec_fn(i32) -> int, j: int, k: int, x: i32)
    requires
        rows_positive(r),
        forall|y: i32| #[trigger] prev(y) >= 0,
        0 <= j <= k <= r.len(),
    ensures
        flow(r, prev, j, x) <= flow(r, prev, k, x),
    decreases k - j,
{
    if j < k {
        lemma_flow_monotone(r, prev, j, k - 1, x);
        let p = prev(r[k - 1].result_item_id);
        let m = r[k - 1].quantity as int;
        assert(p * m >= 0) by (nonlinear_arith)
            requires p >= 0, m > 0;
    }
}

pub proof fn lemma_base_monotone(r: Seq<Recipe>, root: i32, q: int, j: nat, k: nat, x: i32)
    requires
        rows_positive(r),
        q >= 0,
        j <= k,
    ensures
        base_upto(r, root, q, j, x) <= base_upto(r, root, q, k, x),
    decreases k - j,
{
    if j < k {
        lemma_base_monotone(r, root, q, j, (k - 1) as nat, x);
        lemma_need_nonneg(r, root, q, (k - 1) as nat);
    }
}

/// Once a level is empty every deeper level is empty.
pub proof fn lemma_empty_stays(r: Seq<Recipe>, root: i32, q: int, d: nat, e: nat)
    requires
        level_empty(r, root, q, d),
        d <= e,
    ensures
        level_empty(r, root, q, e),
    decreases e - d,
{
    if d < e {
        lemma_empty_stays(r, root, q, d, (e - 1) as nat);
        let prev = level(r, root, q, (e - 1) as nat);
        assert forall|j: int| 0 <= j < r.len() implies #[trigger] prev(r[j].result_item_id) == 0 by {
            assert(need(r, root, q, (e - 1) as nat, r[j].result_item_id) == 0);
        }
        assert forall|x: i32| #[trigger] need(r, root, q, e, x) == 0 by {
            lemma_flow_unwanted(r, prev, r.len() as int, x);
        }
    }
}

/// Asking for less of every item asks for less of every ingredient.
pub proof fn lemma_flow_le(r: Seq<Recipe>, a: spec_fn(i32) -> int, b: spec_fn(i32) -> int, k: int, x: i32)
    requires
        rows_positive(r),
        forall|y: i32| 0 <= #[trigger] a(y) <= b(y),
    ensures
        flow(r, a, k, x) <= flow(r, b, k, x),
    decreases k,
{
    if 0 < k <= r.len() {
        lemma_flow_le(r, a, b, k - 1, x);
        let pa = a(r[k - 1].result_item_id);
        let pb = b(r[k - 1].result_item_id);
        let m = r[k - 1].quantity as int;
        assert(pa * m <= pb * m) by (nonlinear_arith)
            requires pa <= pb, m > 0;
    }
}

/// Depth is unique.
pub proof fn lemma_depth_unique(r: Seq<Recipe>, root: i32, q: int, a: nat, b: nat)
    requires
        is_depth(r, root, q, a),
        is_depth(r, root, q, b),
    ensures
        a == b,
{
    if a < b {
        assert(!level_empty(r, root, q, a));
    } else if b < a {
        assert(!level_empty(r, root, q, b));
    }
}

/// A row whose result is wanted makes its ingredient wanted at the next depth.
pub proof fn lemma_flow_positive(r: Seq<Recipe>, prev: spec_fn(i32) -> int, k: int)
    requires
        rows_positive(r),
        forall|y: i32| #[trigger] prev(y) >= 0,
        0 <= k < r.len(),
        prev(r[k].result_item_id) > 0,
    ensures
        flow(r, prev, r.len() as int, r[k].ingredient_item_id) > 0,
{
    let x = r[k].ingredient_item_id;
    lemma_flow_nonneg(r, prev, k, x);
    let p = prev(r[k].result_item_id);
    let m = r[k].quantity as int;
    assert(p * m > 0) by (nonlinear_arith)
        requires p > 0, m > 0;
    lemma_flow_monotone(r, prev, k + 1, r.len() as int, x);
}

/// Rows whose results are not wanted ask for nothing.
pub proof fn lemma_flow_unwanted(r: Seq<Recipe>, prev: spec_fn(i32) -> int, k: int, x: i32)
    requires
        forall|j: int| 0 <= j < r.len() ==> #[trigger] prev(r[j].result_item_id) == 0,
    ensures
        flow(r, prev, k, x) == 0,
    decreases k,
{
    if 0 < k <= r.len() {
        lemma_flow_unwanted(r, prev, k - 1, x);
        assert(prev(r[k - 1].result_item_id) == 0);
    }
}

/// Depth one is empty exactly when the root has no recipe.
pub proof fn lemma_first_level(r: Seq<Recipe>, root: i32, q: int)
    requires
        rows_positive(r),
        q > 0,
    ensures
        level_empty(r, root, q, 1) <==> !recipe_has(r, root),
{
    let prev = level(r, root, q, 0);
    assert forall|y: i32| #[trigger] prev(y) >= 0 by {}
    if recipe_has(r, root) {
        let k = choose|k: int| 0 <= k < r.len() && #[trigger] r[k].result_item_id == root;
        lemma_flow_positive(r, prev, k);
        assert(need(r, root, q, 1, r[k].ingredient_item_id) > 0);
    } else {
        assert forall|x: i32| #[trigger] need(r, root, q, 1, x) == 0 by {
            assert forall|j: int| 0 <= j < r.len() implies #[trigger] prev(r[j].result_item_id) == 0 by {
                assert(r[j].result_item_id != root);
            }
            lemma_flow_unwanted(r, prev, r.len() as int, x);
        }
    }
}

pub proof fn lemma_flow_scale(r: Seq<Recipe>, prev: spec_fn(i32) -> int, scaled: spec_fn(i32) -> int, c: int, k: int, x: i32)
    requires
        forall|y: i32| #[trigger] scaled(y) == c * prev(y),
    ensures
        flow(r, scaled, k, x) == c * flow(r, prev, k, x),
    decreases k,
{
    if 0 < k <= r.len() {
        lemma_flow_scale(r, prev, scaled, c, k - 1, x);
        let a = flow(r, prev, k - 1, x);
        let p = prev(r[k - 1].result_item_id);
        let m = r[k - 1].quantity as int;
        assert(scaled(r[k - 1].result_item_id) == c * p);
        assert(c * a + (c * p) * m == c * (a + p * m)) by (nonlinear_arith);
    }
}

/// Every depth of the tree of `q` units is `q` times that of one unit.
pub proof fn lemma_need_scale(r: Seq<Recipe>, root: i32, q: int, d: nat)
    ensures
        forall|x: i32| #[trigger] need(r, root, q, d, x) == q * need(r, root, 1, d, x),
    decreases d,
{
    if d > 0 {
        lemma_need_scale(r, root, q, (d - 1) as nat);
        let prev = level(r, root, 1, (d - 1) as nat);
        let scaled = level(r, root, q, (d - 1) as nat);
        assert forall|y: i32| #[trigger] scaled(y) == q * prev(y) by {
            assert(need(r, root, q, (d - 1) as nat, y) == q * need(r, root, 1, (d - 1) as nat, y));
        }
        assert forall|x: i32| #[trigger] need(r, root, q, d, x) == q * need(r, root, 1, d, x) by {
            lemma_flow_scale(r, prev, scaled, q, r.len() as int, x);
        }
    }
}

pub proof fn lemma_base_scale(r: Seq<Recipe>, root: i32, q: int, d: nat, x: i32)
    ensures
        base_upto(r, root, q, d, x) == q * base_upto(r, root, 1, d, x),
    decreases d,
{
    if d > 0 {
        lemma_base_scale(r, root, q, (d - 1) as nat, x);
        lemma_need_scale(r, root, q, (d - 1) as nat);
        let a = base_upto(r, root, 1, (d - 1) as nat, x);
        let b = need(r, root, 1, (d - 1) as nat, x);
        assert(q * a + q * b == q * (a + b)) by (nonlinear_arith);
    }
}

/// For a positive quantity the empty depths do not depend on the quantity.
pub proof fn lemma_depth_scale(r: Seq<Recipe>, root: i32, q: int, depth: nat)
    requires
        q > 0,
    ensures
        is_depth(r, root, q, depth) <==> is_depth(r, root, 1, depth),
{
    assert forall|d: nat| #[trigger] level_empty(r, root, q, d) <==> level_empty(r, root, 1, d) by {
        lemma_need_scale(r, root, q, d);
        if level_empty(r, root, 1, d) {
            assert forall|x: i32| #[trigger] need(r, root, q, d, x) == 0 by {
                assert(need(r, root, q, d, x) == q * need(r, root, 1, d, x));
            }
        }
        if level_empty(r, root, q, d) {
            assert forall|x: i32| #[trigger] need(r, root, 1, d, x) == 0 by {
                let v = need(r, root, 1, d, x);
                assert(need(r, root, q, d, x) == 0);
                assert(q * v == 0);
                assert(v == 0) by (nonlinear_arith)
                    requires q > 0, q * v == 0;
            }
        }
    }
    if is_depth(r, root, q, depth) {
        assert forall|d: nat| d < depth implies !#[trigger] level_empty(r, root, 1, d) by {
            assert(!level_empty(r, root, q, d));
        }
        assert(level_empty(r, root, 1, depth));
    }
    if is_depth(r, root, 1, depth) {
        assert forall|d: nat| d < depth implies !#[trigger] level_empty(r, root, q, d) by {
            assert(!level_empty(r, root, 1, d));
        }
        assert(level_empty(r, root, q, depth));
    }
}

/// Something asked for at the next depth comes from a row whose result is wanted.
pub proof fn lemma_flow_source(r: Seq<Recipe>, prev: spec_fn(i32) -> int, k: int, x: i32)
    requires
        flow(r, prev, k, x) != 0,
    ensures
        exists|j: int| 0 <= j < k && j < r.len() && r[j].ingredient_item_id == x && #[trigger] prev(r[j].result_item_id) != 0,
    decreases k,
{
    if 0 < k <= r.len() {
        if flow(r, prev, k - 1, x) != 0 {
            lemma_flow_source(r, prev, k - 1, x);
        } else {
            let p = prev(r[k - 1].result_item_id);
            if p == 0 {
                assert(p * r[k - 1].quantity == 0);
            }
            assert(prev(r[k - 1].result_item_id) != 0);
        }
    }
}

/// Two quantity functions that agree on every crafted item ask for the same.
pub proof fn lemma_flow_congruent(r: Seq<Recipe>, a: spec_fn(i32) -> int, b: spec_fn(i32) -> int, k: int, x: i32)
    requires
        forall|j: int| 0 <= j < r.len() ==> #[trigger] a(r[j].result_item_id) == b(r[j].result_item_id),
    ensures
        flow(r, a, k, x) == flow(r, b, k, x),
    decreases k,
{
    if 0 < k <= r.len() {
        lemma_flow_congruent(r, a, b, k - 1, x);
        assert(a(r[k - 1].result_item_id) == b(r[k - 1].result_item_id));
    }
}

} // verus!
