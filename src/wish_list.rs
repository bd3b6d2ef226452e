use vstd::prelude::*;

verus! {

use crate::error::PlanError;
use crate::game_data::{GameData, is_expansion};
use crate::item_list::{ItemList, QUANTITY_MAX};
use crate::models::UserItem;
use crate::recipes::expands_within;
use crate::sources::{MonsterSources, is_source, lists_pair, sources_wf};

/// Where a piece of background work stands.
pub enum AsyncStatus<T> {
    Loading,
    Ready(T),
    Failed(PlanError),
}

/// The monsters that supply one base ingredient.
pub struct IngredientSources {
    pub item_id: i32,
    pub monsters: Vec<MonsterSources>,
}

/// The expansion of one unit of a wished item, with the suppliers of each
/// of its base ingredients.
pub struct Resolution {
    pub base: ItemList,
    pub steps: Vec<ItemList>,
    pub sources: Vec<IngredientSources>,
}

/// The resolution status of one wished item.
pub struct WishStatus {
    pub item_id: i32,
    pub status: AsyncStatus<Resolution>,
}

/// `sources` lists, for each base ingredient of `base` in order, its suppliers.
pub open spec fn sources_match(data: &GameData, base: ItemList, sources: Seq<IngredientSources>) -> bool {
    &&& sources.len() == base@.len()
    &&& forall|i: int| 0 <= i < sources.len() ==> #[trigger] sources[i].item_id == base@[i].0
    &&& forall|i: int| 0 <= i < sources.len() ==> #[trigger] sources_wf(sources[i].monsters@)
    &&& forall|i: int, m: i32, s: i32| 0 <= i < sources.len() ==>
        (#[trigger] lists_pair(sources[i].monsters@, m, s) <==> is_source(data, sources[i].item_id, m, s))
}

/// Expands one unit of `item_id` and finds who drops each base ingredient.
pub fn resolve(data: &GameData, item_id: i32) -> (r: Result<Resolution, PlanError>)
    requires
        data.wf(),
    ensures
        r is Ok <==> expands_within(data.recipe_rows(), item_id, 1, (data.recipe_rows().len() + 1) as nat),
        r matches Ok(res) ==> is_expansion(data.recipe_rows(), item_id, 1, res.base, res.steps@)
            && sources_match(data, res.base, res.sources@),
        r matches Err(e) ==> e == PlanError::QuantityOverflow || e == PlanError::CyclicRecipe,
{
    let (base, steps) = match data.full_recipe(item_id, 1) {
        Ok(pair) => pair,
        Err(e) => {
            return Err(e);
        },
    };
    let mut sources: Vec<IngredientSources> = Vec::new();
    let n = base.len();
    let mut i: usize = 0;
    while i < n
        invariant
            n == base@.len(),
            i <= n,
            sources@.len() == i,
            forall|j: int| 0 <= j < i ==> #[trigger] sources@[j].item_id == base@[j].0,
            forall|j: int| 0 <= j < i ==> #[trigger] sources_wf(sources@[j].monsters@),
            forall|j: int, m: i32, s: i32| 0 <= j < i ==>
                (#[trigger] lists_pair(sources@[j].monsters@, m, s) <==> is_source(data, sources@[j].item_id, m, s)),
        decreases n - i,
    {
        let (x, _) = base.entry(i);
        let monsters = data.locate_sources(x);
        let ghost s0 = sources@;
        let ghost mv = monsters@;
        proof {
            assert(sources_wf(mv));
            assert(forall|m: i32, s: i32| #[trigger] lists_pair(mv, m, s) <==> is_source(data, x, m, s));
        }
        sources.push(IngredientSources { item_id: x, monsters });
        proof {
            assert(sources@[i as int].monsters@ == mv);
            assert(sources@[i as int].item_id == x);
            assert forall|j: int| 0 <= j < i + 1 implies #[trigger] sources_wf(sources@[j].monsters@) by {
                if j < i {
                    assert(sources@[j] == s0[j]);
                    assert(sources_wf(s0[j].monsters@));
                } else {
                    assert(sources@[j].monsters@ == mv);
                }
            }
            assert forall|j: int, m: i32, s: i32| 0 <= j < i + 1 implies
                (#[trigger] lists_pair(sources@[j].monsters@, m, s) <==> is_source(data, sources@[j].item_id, m, s)) by {
                if j < i {
                    assert(sources@[j] == s0[j]);
                    assert(lists_pair(s0[j].monsters@, m, s) <==> is_source(data, s0[j].item_id, m, s));
                } else {
                    assert(sources@[j].monsters@ == mv);
                    assert(lists_pair(mv, m, s) <==> is_source(data, x, m, s));
                }
            }
        }
        i += 1;
    }
    Ok(Resolution { base, steps, sources })
}

/// The lists of a resolution are well formed.
pub open spec fn resolution_wf(res: Resolution) -> bool {
    &&& res.base.wf()
    &&& forall|i: int| 0 <= i < res.steps@.len() ==> #[trigger] res.steps@[i].wf()
}

/// Page `page` of a resolution: its base ingredients on page zero, its
/// crafting step `page - 1` after that, nothing past the last step.
pub open spec fn page_count_of(res: Resolution, page: int, x: i32) -> int {
    if page == 0 {
        res.base.count(x)
    } else if 0 < page <= res.steps@.len() {
        res.steps@[page - 1].count(x)
    } else {
        0
    }
}

/// Quantity of `x` on page `page` that the resolved wishes among the first
/// `k` statuses ask for, each wished quantity times one unit.
pub open spec fn page_demand(st: Seq<WishStatus>, wishes: ItemList, page: int, k: int, x: i32) -> int
    decreases k,
{
    if k <= 0 || k > st.len() {
        0
    } else {
        page_demand(st, wishes, page, k - 1, x) + match st[k - 1].status {
            AsyncStatus::Ready(res) => wishes.count(st[k - 1].item_id) * page_count_of(res, page, x),
            _ => 0,
        }
    }
}

pub proof fn lemma_page_demand_monotone(st: Seq<WishStatus>, wishes: ItemList, page: int, j: int, k: int, x: i32)
    requires
        wishes.wf(),
        forall|i: int| 0 <= i < st.len() ==> (#[trigger] st[i].status matches AsyncStatus::Ready(res) ==> resolution_wf(res)),
        0 <= j <= k <= st.len(),
    ensures
        page_demand(st, wishes, page, j, x) <= page_demand(st, wishes, page, k, x),
    decreases k - j,
{
    if j < k {
        lemma_page_demand_monotone(st, wishes, page, j, k - 1, x);
        if let AsyncStatus::Ready(res) = st[k - 1].status {
            assert(st[k - 1].status matches AsyncStatus::Ready(res) ==> resolution_wf(res));
            wishes.lemma_wf_count(st[k - 1].item_id);
            res.base.lemma_wf_count(x);
            if 0 < page <= res.steps@.len() {
                assert(res.steps@[page - 1].wf());
                res.steps@[page - 1].lemma_wf_count(x);
            }
            let a = wishes.count(st[k - 1].item_id);
            let b = page_count_of(res, page, x);
            assert(a * b >= 0) by (nonlinear_arith)
                requires a >= 0, b >= 0;
        }
    }
}

/// Quantity of `x` that the resolved wishes among the first `k` statuses ask
/// for: each wished quantity times the base ingredients of one unit.
pub open spec fn demand(st: Seq<WishStatus>, wishes: ItemList, k: int, x: i32) -> int
    decreases k,
{
    if k <= 0 || k > st.len() {
        0
    } else {
        demand(st, wishes, k - 1, x) + match st[k - 1].status {
            AsyncStatus::Ready(res) => wishes.count(st[k - 1].item_id) * res.base.count(x),
            _ => 0,
        }
    }
}

pub proof fn lemma_demand_monotone(st: Seq<WishStatus>, wishes: ItemList, j: int, k: int, x: i32)
    requires
        wishes.wf(),
        forall|i: int| 0 <= i < st.len() ==> (#[trigger] st[i].status matches AsyncStatus::Ready(res) ==> resolution_wf(res)),
        0 <= j <= k <= st.len(),
    ensures
        demand(st, wishes, j, x) <= demand(st, wishes, k, x),
    decreases k - j,
{
    if j < k {
        lemma_demand_monotone(st, wishes, j, k - 1, x);
        if let AsyncStatus::Ready(res) = st[k - 1].status {
            assert(st[k - 1].status matches AsyncStatus::Ready(res) ==> resolution_wf(res));
            wishes.lemma_wf_count(st[k - 1].item_id);
            res.base.lemma_wf_count(x);
            let a = wishes.count(st[k - 1].item_id);
            let b = res.base.count(x);
            assert(a * b >= 0) by (nonlinear_arith)
                requires a >= 0, b >= 0;
        }
    }
}

/// `e` is monster `m`, and lives in sub-area `area` when one is given, or
/// somewhere when none is.
pub open spec fn entry_supplies(e: MonsterSources, m: i32, area: Option<i32>) -> bool {
    &&& e.monster_id == m
    &&& match area {
        Some(t) => e.sub_area_ids@.contains(t),
        None => e.sub_area_ids@.len() > 0,
    }
}

/// One of the first `k` entries of `v` supplies monster `m`.
pub open spec fn list_supplies(v: Seq<MonsterSources>, k: int, m: i32, area: Option<i32>) -> bool {
    exists|e: int| 0 <= e < k && e < v.len() && #[trigger] entry_supplies(v[e], m, area)
}

/// Monster `m` drops one of the first `k` base ingredients of `res` that is
/// still needed.
pub open spec fn resolution_supplies(res: Resolution, needed: ItemList, k: int, m: i32, area: Option<i32>) -> bool {
    exists|j: int| 0 <= j < k && j < res.sources@.len() && needed.count(res.sources@[j].item_id) > 0
        && #[trigger] list_supplies(res.sources@[j].monsters@, res.sources@[j].monsters@.len() as int, m, area)
}

/// The wish `w` is resolved and monster `m` drops one of its base
/// ingredients that is still needed.
pub open spec fn wish_supplies(w: WishStatus, needed: ItemList, m: i32, area: Option<i32>) -> bool {
    match w.status {
        AsyncStatus::Ready(res) => resolution_supplies(res, needed, res.sources@.len() as int, m, area),
        _ => false,
    }
}

/// Whether `e` lives in `area`, or anywhere when no area is given.
fn entry_matches(e: &MonsterSources, area: Option<i32>) -> (r: bool)
    ensures
        r == entry_supplies(*e, e.monster_id, area),
{
    match area {
        Some(t) => {
            let mut k: usize = 0;
            while k < e.sub_area_ids.len()
                invariant
                    area == Some(t),
                    k <= e.sub_area_ids@.len(),
                    forall|j: int| 0 <= j < k ==> #[trigger] e.sub_area_ids@[j] != t,
                decreases e.sub_area_ids@.len() - k,
            {
                if e.sub_area_ids[k] == t {
                    proof {
                        assert(e.sub_area_ids@[k as int] == t);
                        assert(e.sub_area_ids@.contains(t));
                    }
                    return true;
                }
                k += 1;
            }
            false
        },
        None => e.sub_area_ids.len() > 0,
    }
}

/// Adds `id` to a list of distinct ids.
pub(crate) fn add_distinct(out: &mut Vec<i32>, id: i32)
    requires
        old(out)@.no_duplicates(),
    ensures
        final(out)@.no_duplicates(),
        forall|x: i32| #[trigger] final(out)@.contains(x) <==> old(out)@.contains(x) || x == id,
{
    let mut k: usize = 0;
    while k < out.len()
        invariant
            k <= out@.len(),
            out@ == old(out)@,
            out@.no_duplicates(),
            forall|j: int| 0 <= j < k ==> #[trigger] out@[j] != id,
        decreases out@.len() - k,
    {
        if out[k] == id {
            proof {
                assert(out@[k as int] == id);
            }
            return;
        }
        k += 1;
    }
    out.push(id);
    proof {
        assert forall|x: i32| #[trigger] out@.contains(x) <==> old(out)@.contains(x) || x == id by {
            if old(out)@.contains(x) {
                let j = choose|j: int| 0 <= j < old(out)@.len() && old(out)@[j] == x;
                assert(out@[j] == x);
            }
            if x == id {
                assert(out@[out@.len() - 1] == x);
            }
            if out@.contains(x) {
                let j = choose|j: int| 0 <= j < out@.len() && out@[j] == x;
                if j < old(out)@.len() {
                    assert(old(out)@[j] == x);
                }
            }
        }
    }
}

/// Adds every monster of `v` that lives in `area`.
fn add_suppliers(out: &mut Vec<i32>, v: &Vec<MonsterSources>, area: Option<i32>)
    requires
        old(out)@.no_duplicates(),
    ensures
        final(out)@.no_duplicates(),
        forall|m: i32| #[trigger] final(out)@.contains(m) <==> old(out)@.contains(m) || list_supplies(v@, v@.len() as int, m, area),
{
    let mut e: usize = 0;
    while e < v.len()
        invariant
            e <= v@.len(),
            out@.no_duplicates(),
            forall|m: i32| #[trigger] out@.contains(m) <==> old(out)@.contains(m) || list_supplies(v@, e as int, m, area),
        decreases v@.len() - e,
    {
        let entry = &v[e];
        if entry_matches(entry, area) {
            add_distinct(out, entry.monster_id);
        }
        proof {
            assert forall|m: i32| #[trigger] out@.contains(m) <==> old(out)@.contains(m) || list_supplies(v@, e + 1, m, area) by {
                if list_supplies(v@, e + 1, m, area) && !list_supplies(v@, e as int, m, area) {
                    let e2 = choose|e2: int| 0 <= e2 < e + 1 && e2 < v@.len() && #[trigger] entry_supplies(v@[e2], m, area);
                    assert(e2 == e);
                }
                if entry_supplies(v@[e as int], m, area) {
                    assert(list_supplies(v@, e + 1, m, area));
                }
                if list_supplies(v@, e as int, m, area) {
                    let e2 = choose|e2: int| 0 <= e2 < e && e2 < v@.len() && #[trigger] entry_supplies(v@[e2], m, area);
                    assert(list_supplies(v@, e + 1, m, area));
                }
            }
        }
        e += 1;
    }
}

/// The wish `w` is resolved and some supplier of one of its base
/// ingredients lives in sub-area `area`.
pub open spec fn wish_in_area(w: WishStatus, area: i32) -> bool {
    match w.status {
        AsyncStatus::Ready(res) => resolution_in_area(res, area),
        _ => false,
    }
}

/// Some supplier of one of the base ingredients of `res` lives in `area`.
pub open spec fn resolution_in_area(res: Resolution, area: i32) -> bool {
    exists|j: int, e: int| 0 <= j < res.sources@.len() && 0 <= e < res.sources@[j].monsters@.len()
        && #[trigger] res.sources@[j].monsters@[e].sub_area_ids@.contains(area)
}

/// Some status of `st` is that of `item_id`.
pub open spec fn has_status(st: Seq<WishStatus>, item_id: i32) -> bool {
    exists|i: int| 0 <= i < st.len() && #[trigger] st[i].item_id == item_id
}

/// The position of the status of `item_id` in `st`.
pub open spec fn status_index(st: Seq<WishStatus>, item_id: i32) -> int {
    choose|i: int| 0 <= i < st.len() && #[trigger] st[i].item_id == item_id
}

/// `st` with `status` as the status of `item_id`: it replaces the earlier
/// one in place, or comes last when there was none.
pub open spec fn with_status(st: Seq<WishStatus>, item_id: i32, status: AsyncStatus<Resolution>) -> Seq<WishStatus> {
    if has_status(st, item_id) {
        st.update(status_index(st, item_id), WishStatus { item_id, status })
    } else {
        st.push(WishStatus { item_id, status })
    }
}

/// `st` without the status of `item_id`.
pub open spec fn without_status(st: Seq<WishStatus>, item_id: i32) -> Seq<WishStatus> {
    if has_status(st, item_id) {
        st.remove(status_index(st, item_id))
    } else {
        st
    }
}

/// Some status of `st` is the pending expansion of `item_id`.
pub open spec fn pending(st: Seq<WishStatus>, item_id: i32) -> bool {
    exists|i: int| 0 <= i < st.len() && #[trigger] st[i].item_id == item_id && st[i].status is Loading
}

/// One of the first `k` entries of `v` lives in sub-area `s`.
pub open spec fn list_areas(v: Seq<MonsterSources>, k: int, s: i32) -> bool {
    exists|e: int| 0 <= e < k && e < v.len() && #[trigger] v[e].sub_area_ids@.contains(s)
}

/// A supplier of one of the first `k` base ingredients of `res` that is
/// still needed lives in sub-area `s`.
pub open spec fn resolution_areas(res: Resolution, needed: ItemList, k: int, s: i32) -> bool {
    exists|j: int| 0 <= j < k && j < res.sources@.len() && needed.count(res.sources@[j].item_id) > 0
        && #[trigger] list_areas(res.sources@[j].monsters@, res.sources@[j].monsters@.len() as int, s)
}

/// The wish `w` is resolved and a supplier of one of its base ingredients
/// that is still needed lives in sub-area `s`.
pub open spec fn wish_areas(w: WishStatus, needed: ItemList, s: i32) -> bool {
    match w.status {
        AsyncStatus::Ready(res) => resolution_areas(res, needed, res.sources@.len() as int, s),
        _ => false,
    }
}

/// Adds every sub-area that an entry of `v` lives in.
fn add_areas(out: &mut Vec<i32>, v: &Vec<MonsterSources>)
    requires
        old(out)@.no_duplicates(),
    ensures
        final(out)@.no_duplicates(),
        forall|s: i32| #[trigger] final(out)@.contains(s) <==> old(out)@.contains(s) || list_areas(v@, v@.len() as int, s),
{
    let mut e: usize = 0;
    while e < v.len()
        invariant
            e <= v@.len(),
            out@.no_duplicates(),
            forall|s: i32| #[trigger] out@.contains(s) <==> old(out)@.contains(s) || list_areas(v@, e as int, s),
        decreases v@.len() - e,
    {
        let ids = &v[e].sub_area_ids;
        let mut t: usize = 0;
        while t < ids.len()
            invariant
                e < v@.len(),
                ids@ == v@[e as int].sub_area_ids@,
                t <= ids@.len(),
                out@.no_duplicates(),
                forall|s: i32| #[trigger] out@.contains(s) <==> old(out)@.contains(s) || list_areas(v@, e as int, s)
                    || exists|t2: int| 0 <= t2 < t && #[trigger] ids@[t2] == s,
            decreases ids@.len() - t,
        {
            let ghost before = out@;
            add_distinct(out, ids[t]);
            proof {
                assert forall|s: i32| #[trigger] out@.contains(s) <==> old(out)@.contains(s) || list_areas(v@, e as int, s)
                    || exists|t2: int| 0 <= t2 < t + 1 && #[trigger] ids@[t2] == s by {
                    if s == ids@[t as int] {
                        assert(exists|t2: int| 0 <= t2 < t + 1 && #[trigger] ids@[t2] == s);
                    }
                    if exists|t2: int| 0 <= t2 < t + 1 && #[trigger] ids@[t2] == s {
                        let t2 = choose|t2: int| 0 <= t2 < t + 1 && #[trigger] ids@[t2] == s;
                        if t2 < t {
                            assert(exists|t3: int| 0 <= t3 < t && #[trigger] ids@[t3] == s);
                        }
                    }
                    if exists|t2: int| 0 <= t2 < t && #[trigger] ids@[t2] == s {
                        let t2 = choose|t2: int| 0 <= t2 < t && #[trigger] ids@[t2] == s;
                        assert(exists|t3: int| 0 <= t3 < t + 1 && #[trigger] ids@[t3] == s);
                    }
                }
            }
            t += 1;
        }
        proof {
            assert forall|s: i32| #[trigger] out@.contains(s) <==> old(out)@.contains(s) || list_areas(v@, e + 1, s) by {
                if exists|t2: int| 0 <= t2 < ids@.len() && #[trigger] ids@[t2] == s {
                    let t2 = choose|t2: int| 0 <= t2 < ids@.len() && #[trigger] ids@[t2] == s;
                    assert(v@[e as int].sub_area_ids@.contains(s));
                    assert(list_areas(v@, e + 1, s));
                }
                if list_areas(v@, e + 1, s) && !list_areas(v@, e as int, s) {
                    let e2 = choose|e2: int| 0 <= e2 < e + 1 && e2 < v@.len() && #[trigger] v@[e2].sub_area_ids@.contains(s);
                    assert(e2 == e);
                    let t2 = choose|t2: int| 0 <= t2 < ids@.len() && ids@[t2] == s;
                    assert(exists|t3: int| 0 <= t3 < ids@.len() && #[trigger] ids@[t3] == s);
                }
                if list_areas(v@, e as int, s) {
                    let e2 = choose|e2: int| 0 <= e2 < e && e2 < v@.len() && #[trigger] v@[e2].sub_area_ids@.contains(s);
                    assert(list_areas(v@, e + 1, s));
                }
            }
        }
        e += 1;
    }
}

/// The wish list: how many of each item the user wants to craft, and where
/// the expansion of each stands.
pub struct WishList {
    wishes: ItemList,
    statuses: Vec<WishStatus>,
}

impl WishList {
    pub closed spec fn wishes(&self) -> ItemList {
        self.wishes
    }

    pub closed spec fn statuses(&self) -> Seq<WishStatus> {
        self.statuses@
    }

    pub open spec fn wf(&self) -> bool {
        &&& self.wishes().wf()
        &&& forall|i: int, j: int| 0 <= i < j < self.statuses().len() ==> self.statuses()[i].item_id != self.statuses()[j].item_id
        &&& forall|i: int| 0 <= i < self.statuses().len() ==>
            (#[trigger] self.statuses()[i].status matches AsyncStatus::Ready(res) ==> resolution_wf(res))
    }

    /// Quantity of `item_id` on the list, zero when absent.
    pub open spec fn quantity(&self, item_id: i32) -> int {
        self.wishes().count(item_id)
    }

    pub fn new() -> (r: WishList)
        ensures
            r.wf(),
            r.statuses().len() == 0,
            forall|x: i32| #[trigger] r.quantity(x) == 0,
    {
        WishList { wishes: ItemList::new(), statuses: Vec::new() }
    }

    /// Quantity of `item_id` on the list.
    pub fn get(&self, item_id: i32) -> (r: i16)
        requires
            self.wf(),
        ensures
            r as int == self.quantity(item_id),
    {
        self.wishes.get(item_id)
    }

    /// The wished items and their quantities, in increasing order of id.
    pub fn items(&self) -> (r: Vec<(i32, i16)>)
        ensures
            r@ == self.wishes()@,
    {
        self.wishes.to_vec()
    }

    /// Position of the status of `item_id`, or the number of statuses.
    fn status_position(&self, item_id: i32) -> (r: usize)
        ensures
            r <= self.statuses().len(),
            r < self.statuses().len() ==> self.statuses()[r as int].item_id == item_id,
            r == self.statuses().len() ==> forall|i: int| 0 <= i < self.statuses().len() ==> #[trigger] self.statuses()[i].item_id != item_id,
    {
        let mut i: usize = 0;
        while i < self.statuses.len()
            invariant
                i <= self.statuses@.len(),
                forall|j: int| 0 <= j < i ==> #[trigger] self.statuses@[j].item_id != item_id,
            decreases self.statuses@.len() - i,
        {
            if self.statuses[i].item_id == item_id {
                return i;
            }
            i += 1;
        }
        i
    }

    /// Records `status` for `item_id`, replacing any earlier one.
    fn put_status(&mut self, item_id: i32, status: AsyncStatus<Resolution>) -> (idx: usize)
        requires
            old(self).wf(),
            status matches AsyncStatus::Ready(res) ==> resolution_wf(res),
        ensures
            final(self).wf(),
            final(self).wishes() == old(self).wishes(),
            idx < final(self).statuses().len(),
            final(self).statuses()[idx as int] == (WishStatus { item_id, status }),
            final(self).statuses() == with_status(old(self).statuses(), item_id, status),
    {
        let p = self.status_position(item_id);
        let ghost st = self.statuses();
        if p < self.statuses.len() {
            proof {
                assert(has_status(st, item_id));
                let c = status_index(st, item_id);
                assert(st[c].item_id == item_id);
                assert(c == p);
            }
            self.statuses.set(p, WishStatus { item_id, status });
            p
        } else {
            self.statuses.push(WishStatus { item_id, status });
            p
        }
    }

    /// Adds `quantity` units of `item_id`. An item new to the list enters it
    /// pending. Returns the record to store, and whether the caller starts an
    /// expansion: for a new item, and for one whose expansion is not pending
    /// (its result then replaces the earlier one); an addition to a pending
    /// item merges into it.
    pub fn add(&mut self, item_id: i32, quantity: i16) -> (r: Result<(UserItem, bool), PlanError>)
        requires
            old(self).wf(),
            quantity > 0,
        ensures
            final(self).wf(),
            r is Ok <==> old(self).quantity(item_id) + quantity <= QUANTITY_MAX,
            r is Err ==> r == Err::<(UserItem, bool), PlanError>(PlanError::QuantityOverflow)
                && final(self).wishes()@ == old(self).wishes()@ && final(self).statuses() == old(self).statuses(),
            r matches Ok(out) ==> {
                &&& final(self).quantity(item_id) == old(self).quantity(item_id) + quantity
                &&& forall|x: i32| x != item_id ==> #[trigger] final(self).quantity(x) == old(self).quantity(x)
                &&& out.0 == (UserItem { item_id, quantity: final(self).quantity(item_id) as i16 })
                &&& out.1 == (old(self).quantity(item_id) == 0 || !pending(old(self).statuses(), item_id))
                &&& old(self).quantity(item_id) == 0 ==> final(self).statuses() == with_status(old(self).statuses(), item_id, AsyncStatus::Loading)
                &&& old(self).quantity(item_id) != 0 ==> final(self).statuses() == old(self).statuses()
            },
    {
        let before = self.wishes.get(item_id);
        match self.wishes.add_item(item_id, quantity) {
            Ok(()) => {},
            Err(e) => {
                return Err(e);
            },
        }
        let now = self.wishes.get(item_id);
        if before == 0 {
            let _ = self.put_status(item_id, AsyncStatus::Loading);
            return Ok((UserItem { item_id, quantity: now }, true));
        }
        let p = self.status_position(item_id);
        let waiting = p < self.statuses.len() && matches!(self.statuses[p].status, AsyncStatus::Loading);
        proof {
            if pending(self.statuses(), item_id) {
                let i = choose|i: int| 0 <= i < self.statuses().len() && #[trigger] self.statuses()[i].item_id == item_id && self.statuses()[i].status is Loading;
                assert(p < self.statuses().len());
                assert(i == p);
            }
        }
        Ok((UserItem { item_id, quantity: now }, !waiting))
    }

    /// Stores the outcome of the expansion of `item_id`. An outcome for an
    /// item no longer on the list is dropped. Returns whether it was stored.
    pub fn complete(&mut self, item_id: i32, outcome: Result<Resolution, PlanError>) -> (r: bool)
        requires
            old(self).wf(),
            outcome matches Ok(res) ==> resolution_wf(res),
        ensures
            final(self).wf(),
            final(self).wishes() == old(self).wishes(),
            r == (old(self).quantity(item_id) > 0),
            !r ==> final(self).statuses() == old(self).statuses(),
            r ==> final(self).statuses() == with_status(old(self).statuses(), item_id, match outcome {
                Ok(res) => AsyncStatus::Ready(res),
                Err(e) => AsyncStatus::<Resolution>::Failed(e),
            }),
    {
        if self.wishes.get(item_id) == 0 {
            return false;
        }
        let idx = match outcome {
            Ok(res) => self.put_status(item_id, AsyncStatus::Ready(res)),
            Err(e) => self.put_status(item_id, AsyncStatus::Failed(e)),
        };
        proof {
            assert(self.statuses()[idx as int].item_id == item_id);
        }
        true
    }

    /// Takes up to `quantity` units of `item_id` off the list; an item whose
    /// quantity reaches zero leaves it. Returns the units taken and the
    /// record to store, whose quantity zero means the row is deleted.
    pub fn remove(&mut self, item_id: i32, quantity: i16) -> (r: (i16, UserItem))
        requires
            old(self).wf(),
            quantity >= 0,
        ensures
            final(self).wf(),
            r.0 == if quantity as int <= old(self).quantity(item_id) { quantity as int } else { old(self).quantity(item_id) },
            final(self).quantity(item_id) == old(self).quantity(item_id) - r.0,
            forall|x: i32| x != item_id ==> #[trigger] final(self).quantity(x) == old(self).quantity(x),
            r.1 == (UserItem { item_id, quantity: final(self).quantity(item_id) as i16 }),
            final(self).quantity(item_id) > 0 ==> final(self).statuses() == old(self).statuses(),
            final(self).quantity(item_id) == 0 ==> final(self).statuses() == without_status(old(self).statuses(), item_id)
                && !has_status(final(self).statuses(), item_id),
    {
        let held = self.wishes.get(item_id);
        let taken: i16 = if quantity <= held { quantity } else { held };
        let left: i16 = held - taken;
        self.wishes.set_item(item_id, left);
        if left == 0 {
            let p = self.status_position(item_id);
            let ghost st = self.statuses();
            if p < self.statuses.len() {
                proof {
                    assert(has_status(st, item_id));
                    let c = status_index(st, item_id);
                    assert(st[c].item_id == item_id);
                    assert(c == p);
                }
                let _ = self.statuses.remove(p);
                proof {
                    assert(self.statuses() == st.remove(p as int));
                    if has_status(self.statuses(), item_id) {
                        let i = choose|i: int| 0 <= i < self.statuses().len() && #[trigger] self.statuses()[i].item_id == item_id;
                        if i < p {
                            assert(st[i].item_id == item_id);
                        } else {
                            assert(st[i + 1].item_id == item_id);
                        }
                    }
                    assert forall|i: int| 0 <= i < self.statuses().len() implies
                        (#[trigger] self.statuses()[i].status matches AsyncStatus::Ready(res) ==> resolution_wf(res)) by {
                        if i >= p {
                            assert(self.statuses()[i] == old(self).statuses()[i + 1]);
                        }
                    }
                }
            }
        }
        (taken, UserItem { item_id, quantity: left })
    }

    /// What the resolved wishes still need beyond the inventory: for each
    /// base ingredient, the wished quantities times its quantity in one unit,
    /// less what is held; ingredients held in full are left out.
    pub fn still_needed(&self, inventory: &ItemList) -> (r: Result<ItemList, PlanError>)
        requires
            self.wf(),
            inventory.wf(),
        ensures
            r is Ok <==> forall|x: i32| #[trigger] demand(self.statuses(), self.wishes(), self.statuses().len() as int, x) <= QUANTITY_MAX,
            r matches Err(e) ==> e == PlanError::QuantityOverflow,
            r matches Ok(l) ==> l.wf() && forall|x: i32| #[trigger] l.count(x) == if demand(self.statuses(), self.wishes(), self.statuses().len() as int, x) > inventory.count(x) {
                demand(self.statuses(), self.wishes(), self.statuses().len() as int, x) - inventory.count(x)
            } else {
                0
            },
    {
        let ghost st = self.statuses();
        let mut total = ItemList::new();
        let n = self.statuses.len();
        let mut k: usize = 0;
        while k < n
            invariant
                n == st.len(),
                st == self.statuses(),
                self.wf(),
                k <= n,
                total.wf(),
                forall|x: i32| #[trigger] total.count(x) == demand(st, self.wishes(), k as int, x),
            decreases n - k,
        {
            match &self.statuses[k].status {
                AsyncStatus::Ready(res) => {
                    let q = self.wishes.get(self.statuses[k].item_id);
                    proof {
                        assert(st[k as int].status matches AsyncStatus::Ready(res) ==> resolution_wf(res));
                    }
                    let ghost t0 = total;
                    let added = total.add_items_times(&res.base, q);
                    if added.is_err() {
                        proof {
                            let x = choose|x: i32| !(#[trigger] t0.count(x) + q * res.base.count(x) <= QUANTITY_MAX);
                            assert(demand(st, self.wishes(), k + 1, x) > QUANTITY_MAX);
                            lemma_demand_monotone(st, self.wishes(), k + 1, n as int, x);
                        }
                        return Err(PlanError::QuantityOverflow);
                    }
                },
                _ => {},
            }
            k += 1;
        }
        proof {
            assert forall|x: i32| #[trigger] demand(st, self.wishes(), n as int, x) <= QUANTITY_MAX by {
                total.lemma_wf_count(x);
            }
        }
        let mut out = ItemList::new();
        let m = total.len();
        let mut i: usize = 0;
        while i < m
            invariant
                m == total@.len(),
                total.wf(),
                inventory.wf(),
                i <= m,
                out.wf(),
                forall|x: i32| #[trigger] out.count(x) == if exists|j: int| 0 <= j < i && #[trigger] total@[j].0 == x {
                    if total.count(x) > inventory.count(x) { total.count(x) - inventory.count(x) } else { 0 }
                } else {
                    0
                },
            decreases m - i,
        {
            let (x, needed) = total.entry(i);
            let held = inventory.get(x);
            proof {
                crate::item_list::lemma_count_at(total@, i as int);
                assert forall|j: int| 0 <= j < i implies #[trigger] total@[j].0 != x by {
                    assert(total@[j].0 < total@[i as int].0);
                }
            }
            if needed > held {
                out.set_item(x, needed - held);
            }
            proof {
                assert(total@[i as int].0 == x);
            }
            i += 1;
        }
        proof {
            assert forall|x: i32| #[trigger] out.count(x) == if total.count(x) > inventory.count(x) {
                total.count(x) - inventory.count(x)
            } else {
                0
            } by {
                total.lemma_wf_count(x);
                inventory.lemma_wf_count(x);
            }
        }
        Ok(out)
    }

    /// The monsters that drop a base ingredient that the resolved wishes
    /// still need beyond `inventory`, each once; with `area`, only those that
    /// live there.
    pub fn needed_monsters(&self, inventory: &ItemList, area: Option<i32>) -> (r: Result<Vec<i32>, PlanError>)
        requires
            self.wf(),
            inventory.wf(),
        ensures
            r is Ok <==> forall|x: i32| #[trigger] demand(self.statuses(), self.wishes(), self.statuses().len() as int, x) <= QUANTITY_MAX,
            r matches Err(e) ==> e == PlanError::QuantityOverflow,
            r matches Ok(ms) ==> ms@.no_duplicates() && exists|needed: ItemList| {
                &&& #[trigger] needed.wf()
                &&& forall|x: i32| #[trigger] needed.count(x) == if demand(self.statuses(), self.wishes(), self.statuses().len() as int, x) > inventory.count(x) {
                    demand(self.statuses(), self.wishes(), self.statuses().len() as int, x) - inventory.count(x)
                } else {
                    0
                }
                &&& forall|m: i32| #[trigger] ms@.contains(m) <==> exists|i: int| 0 <= i < self.statuses().len() && #[trigger] wish_supplies(self.statuses()[i], needed, m, area)
            },
    {
        let needed = match self.still_needed(inventory) {
            Ok(l) => l,
            Err(e) => {
                return Err(e);
            },
        };
        let ghost st = self.statuses();
        let mut out: Vec<i32> = Vec::new();
        let n = self.statuses.len();
        let mut i: usize = 0;
        while i < n
            invariant
                n == st.len(),
                st == self.statuses(),
                needed.wf(),
                i <= n,
                out@.no_duplicates(),
                forall|m: i32| #[trigger] out@.contains(m) <==> exists|i2: int| 0 <= i2 < i && #[trigger] wish_supplies(st[i2], needed, m, area),
            decreases n - i,
        {
            let ghost before = out@;
            match &self.statuses[i].status {
                AsyncStatus::Ready(res) => {
                    let ns = res.sources.len();
                    let mut j: usize = 0;
                    while j < ns
                        invariant
                            ns == res.sources@.len(),
                            needed.wf(),
                            j <= ns,
                            out@.no_duplicates(),
                            forall|m: i32| #[trigger] out@.contains(m) <==> before.contains(m) || resolution_supplies(*res, needed, j as int, m, area),
                        decreases ns - j,
                    {
                        let ingredient = &res.sources[j];
                        let ghost mid = out@;
                        if needed.get(ingredient.item_id) > 0 {
                            add_suppliers(&mut out, &ingredient.monsters, area);
                        }
                        proof {
                            assert forall|m: i32| #[trigger] out@.contains(m) <==> before.contains(m) || resolution_supplies(*res, needed, j + 1, m, area) by {
                                if resolution_supplies(*res, needed, j + 1, m, area) && !resolution_supplies(*res, needed, j as int, m, area) {
                                    let j2 = choose|j2: int| 0 <= j2 < j + 1 && j2 < res.sources@.len() && needed.count(res.sources@[j2].item_id) > 0
                                        && #[trigger] list_supplies(res.sources@[j2].monsters@, res.sources@[j2].monsters@.len() as int, m, area);
                                    assert(j2 == j);
                                }
                                if needed.count(ingredient.item_id) > 0 && list_supplies(ingredient.monsters@, ingredient.monsters@.len() as int, m, area) {
                                    assert(res.sources@[j as int] == *ingredient);
                                    assert(resolution_supplies(*res, needed, j + 1, m, area));
                                }
                                if resolution_supplies(*res, needed, j as int, m, area) {
                                    let j2 = choose|j2: int| 0 <= j2 < j && j2 < res.sources@.len() && needed.count(res.sources@[j2].item_id) > 0
                                        && #[trigger] list_supplies(res.sources@[j2].monsters@, res.sources@[j2].monsters@.len() as int, m, area);
                                    assert(resolution_supplies(*res, needed, j + 1, m, area));
                                }
                            }
                        }
                        j += 1;
                    }
                },
                _ => {},
            }
            proof {
                assert forall|m: i32| #[trigger] out@.contains(m) <==> exists|i2: int| 0 <= i2 < i + 1 && #[trigger] wish_supplies(st[i2], needed, m, area) by {
                    if wish_supplies(st[i as int], needed, m, area) {
                        assert(exists|i2: int| 0 <= i2 < i + 1 && #[trigger] wish_supplies(st[i2], needed, m, area));
                    }
                    if exists|i2: int| 0 <= i2 < i + 1 && #[trigger] wish_supplies(st[i2], needed, m, area) {
                        let i2 = choose|i2: int| 0 <= i2 < i + 1 && #[trigger] wish_supplies(st[i2], needed, m, area);
                        if i2 < i {
                            assert(exists|i3: int| 0 <= i3 < i && #[trigger] wish_supplies(st[i3], needed, m, area));
                        }
                    }
                    if exists|i2: int| 0 <= i2 < i && #[trigger] wish_supplies(st[i2], needed, m, area) {
                        let i2 = choose|i2: int| 0 <= i2 < i && #[trigger] wish_supplies(st[i2], needed, m, area);
                        assert(exists|i3: int| 0 <= i3 < i + 1 && #[trigger] wish_supplies(st[i3], needed, m, area));
                    }
                }
            }
            i += 1;
        }
        proof {
            assert(needed.wf());
        }
        Ok(out)
    }

    /// The sub-areas to draw on the map: every sub-area where a supplier of
    /// a base ingredient that the resolved wishes still need beyond
    /// `inventory` lives, each once.
    pub fn sub_areas_to_draw(&self, inventory: &ItemList) -> (r: Result<Vec<i32>, PlanError>)
        requires
            self.wf(),
            inventory.wf(),
        ensures
            r is Ok <==> forall|x: i32| #[trigger] demand(self.statuses(), self.wishes(), self.statuses().len() as int, x) <= QUANTITY_MAX,
            r matches Err(e) ==> e == PlanError::QuantityOverflow,
            r matches Ok(ms) ==> ms@.no_duplicates() && exists|needed: ItemList| {
                &&& #[trigger] needed.wf()
                &&& forall|x: i32| #[trigger] needed.count(x) == if demand(self.statuses(), self.wishes(), self.statuses().len() as int, x) > inventory.count(x) {
                    demand(self.statuses(), self.wishes(), self.statuses().len() as int, x) - inventory.count(x)
                } else {
                    0
                }
                &&& forall|m: i32| #[trigger] ms@.contains(m) <==> exists|i: int| 0 <= i < self.statuses().len() && #[trigger] wish_areas(self.statuses()[i], needed, m)
            },
    {
        let needed = match self.still_needed(inventory) {
            Ok(l) => l,
            Err(e) => {
                return Err(e);
            },
        };
        let ghost st = self.statuses();
        let mut out: Vec<i32> = Vec::new();
        let n = self.statuses.len();
        let mut i: usize = 0;
        while i < n
            invariant
                n == st.len(),
                st == self.statuses(),
                needed.wf(),
                i <= n,
                out@.no_duplicates(),
                forall|m: i32| #[trigger] out@.contains(m) <==> exists|i2: int| 0 <= i2 < i && #[trigger] wish_areas(st[i2], needed, m),
            decreases n - i,
        {
            let ghost before = out@;
            match &self.statuses[i].status {
                AsyncStatus::Ready(res) => {
                    let ns = res.sources.len();
                    let mut j: usize = 0;
                    while j < ns
                        invariant
                            ns == res.sources@.len(),
                            needed.wf(),
                            j <= ns,
                            out@.no_duplicates(),
                            forall|m: i32| #[trigger] out@.contains(m) <==> before.contains(m) || resolution_areas(*res, needed, j as int, m),
                        decreases ns - j,
                    {
                        let ingredient = &res.sources[j];
                        let ghost mid = out@;
                        if needed.get(ingredient.item_id) > 0 {
                            add_areas(&mut out, &ingredient.monsters);
                        }
                        proof {
                            assert forall|m: i32| #[trigger] out@.contains(m) <==> before.contains(m) || resolution_areas(*res, needed, j + 1, m) by {
                                if resolution_areas(*res, needed, j + 1, m) && !resolution_areas(*res, needed, j as int, m) {
                                    let j2 = choose|j2: int| 0 <= j2 < j + 1 && j2 < res.sources@.len() && needed.count(res.sources@[j2].item_id) > 0
                                        && #[trigger] list_areas(res.sources@[j2].monsters@, res.sources@[j2].monsters@.len() as int, m);
                                    assert(j2 == j);
                                }
                                if needed.count(ingredient.item_id) > 0 && list_areas(ingredient.monsters@, ingredient.monsters@.len() as int, m) {
                                    assert(res.sources@[j as int] == *ingredient);
                                    assert(resolution_areas(*res, needed, j + 1, m));
                                }
                                if resolution_areas(*res, needed, j as int, m) {
                                    let j2 = choose|j2: int| 0 <= j2 < j && j2 < res.sources@.len() && needed.count(res.sources@[j2].item_id) > 0
                                        && #[trigger] list_areas(res.sources@[j2].monsters@, res.sources@[j2].monsters@.len() as int, m);
                                    assert(resolution_areas(*res, needed, j + 1, m));
                                }
                            }
                        }
                        j += 1;
                    }
                },
                _ => {},
            }
            proof {
                assert forall|m: i32| #[trigger] out@.contains(m) <==> exists|i2: int| 0 <= i2 < i + 1 && #[trigger] wish_areas(st[i2], needed, m) by {
                    if wish_areas(st[i as int], needed, m) {
                        assert(exists|i2: int| 0 <= i2 < i + 1 && #[trigger] wish_areas(st[i2], needed, m));
                    }
                    if exists|i2: int| 0 <= i2 < i + 1 && #[trigger] wish_areas(st[i2], needed, m) {
                        let i2 = choose|i2: int| 0 <= i2 < i + 1 && #[trigger] wish_areas(st[i2], needed, m);
                        if i2 < i {
                            assert(exists|i3: int| 0 <= i3 < i && #[trigger] wish_areas(st[i3], needed, m));
                        }
                    }
                    if exists|i2: int| 0 <= i2 < i && #[trigger] wish_areas(st[i2], needed, m) {
                        let i2 = choose|i2: int| 0 <= i2 < i && #[trigger] wish_areas(st[i2], needed, m);
                        assert(exists|i3: int| 0 <= i3 < i + 1 && #[trigger] wish_areas(st[i3], needed, m));
                    }
                }
            }
            i += 1;
        }
        proof {
            assert(needed.wf());
        }
        Ok(out)
    }

    /// What the resolved wishes ask for on page `page`: base ingredients on
    /// page zero, crafting step `page - 1` after that, each wished quantity
    /// times one unit.
    pub fn needed_on_page(&self, page: usize) -> (r: Result<ItemList, PlanError>)
        requires
            self.wf(),
        ensures
            r is Ok <==> forall|x: i32| #[trigger] page_demand(self.statuses(), self.wishes(), page as int, self.statuses().len() as int, x) <= QUANTITY_MAX,
            r matches Err(e) ==> e == PlanError::QuantityOverflow,
            r matches Ok(l) ==> l.wf() && forall|x: i32| #[trigger] l.count(x) == page_demand(self.statuses(), self.wishes(), page as int, self.statuses().len() as int, x),
    {
        let ghost st = self.statuses();
        let mut total = ItemList::new();
        let n = self.statuses.len();
        let mut k: usize = 0;
        while k < n
            invariant
                n == st.len(),
                st == self.statuses(),
                self.wf(),
                k <= n,
                total.wf(),
                forall|x: i32| #[trigger] total.count(x) == page_demand(st, self.wishes(), page as int, k as int, x),
            decreases n - k,
        {
            match &self.statuses[k].status {
                AsyncStatus::Ready(res) => {
                    let q = self.wishes.get(self.statuses[k].item_id);
                    proof {
                        assert(st[k as int].status matches AsyncStatus::Ready(res) ==> resolution_wf(res));
                    }
                    let ghost t0 = total;
                    if page == 0 {
                        if total.add_items_times(&res.base, q).is_err() {
                            proof {
                                let x = choose|x: i32| !(#[trigger] t0.count(x) + q * res.base.count(x) <= QUANTITY_MAX);
                                assert(page_demand(st, self.wishes(), page as int, k + 1, x) > QUANTITY_MAX);
                                lemma_page_demand_monotone(st, self.wishes(), page as int, k + 1, n as int, x);
                            }
                            return Err(PlanError::QuantityOverflow);
                        }
                    } else if page <= res.steps.len() {
                        proof {
                            assert(res.steps@[page - 1].wf());
                        }
                        if total.add_items_times(&res.steps[page - 1], q).is_err() {
                            proof {
                                let x = choose|x: i32| !(#[trigger] t0.count(x) + q * res.steps@[page - 1].count(x) <= QUANTITY_MAX);
                                assert(page_demand(st, self.wishes(), page as int, k + 1, x) > QUANTITY_MAX);
                                lemma_page_demand_monotone(st, self.wishes(), page as int, k + 1, n as int, x);
                            }
                            return Err(PlanError::QuantityOverflow);
                        }
                    } else {
                        proof {
                            assert forall|x: i32| #[trigger] total.count(x) == page_demand(st, self.wishes(), page as int, k + 1, x) by {
                                assert(page_count_of(*res, page as int, x) == 0);
                                let c = self.wishes().count(st[k as int].item_id);
                                assert(c * 0 == 0);
                            }
                        }
                    }
                },
                _ => {},
            }
            k += 1;
        }
        proof {
            assert forall|x: i32| #[trigger] page_demand(st, self.wishes(), page as int, n as int, x) <= QUANTITY_MAX by {
                total.lemma_wf_count(x);
            }
        }
        Ok(total)
    }

    /// Whether the wish for `item_id` is shown: always when no sub-area is
    /// selected; when one is, only once resolved and when some supplier of
    /// one of its base ingredients lives there.
    pub fn shown_in_area(&self, item_id: i32, area: Option<i32>) -> (r: bool)
        ensures
            r == match area {
                None => true,
                Some(a) => exists|i: int| 0 <= i < self.statuses().len() && self.statuses()[i].item_id == item_id
                    && #[trigger] wish_in_area(self.statuses()[i], a),
            },
    {
        let a = match area {
            None => {
                return true;
            },
            Some(a) => a,
        };
        let mut i: usize = 0;
        while i < self.statuses.len()
            invariant
                i <= self.statuses@.len(),
                area == Some(a),
                forall|i2: int| 0 <= i2 < i && self.statuses()[i2].item_id == item_id ==> !#[trigger] wish_in_area(self.statuses()[i2], a),
            decreases self.statuses@.len() - i,
        {
            if self.statuses[i].item_id == item_id {
                if let AsyncStatus::Ready(res) = &self.statuses[i].status {
                    let mut j: usize = 0;
                    while j < res.sources.len()
                        invariant
                            j <= res.sources@.len(),
                            area == Some(a),
                            i < self.statuses().len(),
                            self.statuses()[i as int].item_id == item_id,
                            self.statuses()[i as int].status == AsyncStatus::Ready(*res),
                            forall|i2: int| 0 <= i2 < i && self.statuses()[i2].item_id == item_id ==> !#[trigger] wish_in_area(self.statuses()[i2], a),
                            forall|j2: int, e2: int| 0 <= j2 < j && 0 <= e2 < res.sources@[j2].monsters@.len()
                                ==> !#[trigger] res.sources@[j2].monsters@[e2].sub_area_ids@.contains(a),
                        decreases res.sources@.len() - j,
                    {
                        let monsters = &res.sources[j].monsters;
                        let mut e: usize = 0;
                        while e < monsters.len()
                            invariant
                                e <= monsters@.len(),
                                j < res.sources@.len(),
                                area == Some(a),
                                i < self.statuses().len(),
                                self.statuses()[i as int].item_id == item_id,
                                self.statuses()[i as int].status == AsyncStatus::Ready(*res),
                                forall|i2: int| 0 <= i2 < i && self.statuses()[i2].item_id == item_id ==> !#[trigger] wish_in_area(self.statuses()[i2], a),
                                monsters@ == res.sources@[j as int].monsters@,
                                forall|j2: int, e2: int| 0 <= j2 < j && 0 <= e2 < res.sources@[j2].monsters@.len()
                                    ==> !#[trigger] res.sources@[j2].monsters@[e2].sub_area_ids@.contains(a),
                                forall|e2: int| 0 <= e2 < e ==> !#[trigger] monsters@[e2].sub_area_ids@.contains(a),
                            decreases monsters@.len() - e,
                        {
                            if entry_matches(&monsters[e], Some(a)) {
                                proof {
                                    let rs = *res;
                                    assert(rs.sources@[j as int].monsters@[e as int].sub_area_ids@.contains(a));
                                    assert(exists|j2: int, e2: int| 0 <= j2 < rs.sources@.len() && 0 <= e2 < rs.sources@[j2].monsters@.len()
                                        && #[trigger] rs.sources@[j2].monsters@[e2].sub_area_ids@.contains(a));
                                    assert(resolution_in_area(rs, a));
                                    assert(self.statuses()[i as int].status == AsyncStatus::Ready(rs));
                                    assert(wish_in_area(self.statuses()[i as int], a));
                                }
                                return true;
                            }
                            e += 1;
                        }
                        j += 1;
                    }
                }
                proof {
                    assert(!wish_in_area(self.statuses()[i as int], a));
                }
            }
            i += 1;
        }
        false
    }
}

} // verus!
