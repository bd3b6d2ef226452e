use vstd::prelude::*;

verus! {

use crate::game_data::GameData;
use crate::models::{Drop, MonsterSubArea};

/// Monster `m`, which is in the monster table, drops `ingredient` and lives
/// in sub-area `s`, which is in the sub-area table.
pub open spec fn is_source(data: &GameData, ingredient: i32, m: i32, s: i32) -> bool {
    &&& data.monster_ids().contains(m)
    &&& data.sub_area_ids().contains(s)
    &&& data.drop_rows().contains(Drop { monster_id: m, item_id: ingredient })
    &&& data.habitat_rows().contains(MonsterSubArea { monster_id: m, sub_area_id: s })
}

/// A monster that drops an ingredient, with every sub-area it lives in,
/// each once.
pub struct MonsterSources {
    pub monster_id: i32,
    pub sub_area_ids: Vec<i32>,
}

/// Some entry of `v` is monster `m` and lists sub-area `s`.
pub open spec fn lists_pair(v: Seq<MonsterSources>, m: i32, s: i32) -> bool {
    exists|i: int| 0 <= i < v.len() && v[i].monster_id == m && #[trigger] v[i].sub_area_ids@.contains(s)
}

/// Some entry of `v` is monster `m`.
pub open spec fn lists_monster(v: Seq<MonsterSources>, m: i32) -> bool {
    exists|i: int| 0 <= i < v.len() && #[trigger] v[i].monster_id == m
}

/// Each monster once, each of its sub-areas once, and no monster without one.
pub open spec fn sources_wf(v: Seq<MonsterSources>) -> bool {
    &&& forall|i: int, j: int| 0 <= i < j < v.len() ==> v[i].monster_id != v[j].monster_id
    &&& forall|i: int| 0 <= i < v.len() ==> #[trigger] v[i].sub_area_ids@.no_duplicates()
    &&& forall|i: int| 0 <= i < v.len() ==> #[trigger] v[i].sub_area_ids@.len() > 0
}

/// Adds the pair (m, s) to a list of distinct pairs.
fn add_pair(pairs: &mut Vec<(i32, i32)>, m: i32, s: i32)
    requires
        old(pairs)@.no_duplicates(),
    ensures
        final(pairs)@.no_duplicates(),
        forall|p: (i32, i32)| #[trigger] final(pairs)@.contains(p) <==> old(pairs)@.contains(p) || p == (m, s),
{
    let mut k: usize = 0;
    while k < pairs.len()
        invariant
            k <= pairs@.len(),
            pairs@ == old(pairs)@,
            pairs@.no_duplicates(),
            forall|j: int| 0 <= j < k ==> #[trigger] pairs@[j] != (m, s),
        decreases pairs@.len() - k,
    {
        if pairs[k].0 == m && pairs[k].1 == s {
            proof {
                assert(pairs@[k as int] == (m, s));
            }
            return;
        }
        k += 1;
    }
    pairs.push((m, s));
    proof {
        assert forall|p: (i32, i32)| #[trigger] pairs@.contains(p) <==> old(pairs)@.contains(p) || p == (m, s) by {
            if old(pairs)@.contains(p) {
                let j = choose|j: int| 0 <= j < old(pairs)@.len() && old(pairs)@[j] == p;
                assert(pairs@[j] == p);
            }
            if p == (m, s) {
                assert(pairs@[pairs@.len() - 1] == p);
            }
            if pairs@.contains(p) {
                let j = choose|j: int| 0 <= j < pairs@.len() && pairs@[j] == p;
                if j < old(pairs)@.len() {
                    assert(old(pairs)@[j] == p);
                }
            }
        }
    }
}

/// Every sub-area paired with monster `m`, each once.
fn sub_areas_of(pairs: &Vec<(i32, i32)>, m: i32) -> (r: Vec<i32>)
    requires
        pairs@.no_duplicates(),
    ensures
        r@.no_duplicates(),
        forall|s: i32| #[trigger] r@.contains(s) <==> pairs@.contains((m, s)),
{
    let mut r: Vec<i32> = Vec::new();
    let mut k: usize = 0;
    while k < pairs.len()
        invariant
            k <= pairs@.len(),
            pairs@.no_duplicates(),
            r@.no_duplicates(),
            forall|s: i32| #[trigger] r@.contains(s) <==> exists|j: int| 0 <= j < k && #[trigger] pairs@[j] == (m, s),
        decreases pairs@.len() - k,
    {
        let (pm, ps) = pairs[k];
        if pm == m {
            proof {
                if r@.contains(ps) {
                    let j = choose|j: int| 0 <= j < k && #[trigger] pairs@[j] == (m, ps);
                    assert(pairs@[k as int] == (m, ps));
                }
            }
            let ghost r0 = r@;
            r.push(ps);
            proof {
                assert forall|s: i32| #[trigger] r@.contains(s) <==> exists|j: int| 0 <= j < k + 1 && #[trigger] pairs@[j] == (m, s) by {
                    if s == ps {
                        assert(r@[r@.len() - 1] == s);
                        assert(pairs@[k as int] == (m, s));
                    } else {
                        if r@.contains(s) {
                            let i = choose|i: int| 0 <= i < r@.len() && r@[i] == s;
                            assert(r0[i] == s);
                            assert(r0.contains(s));
                        }
                        if r0.contains(s) {
                            let i = choose|i: int| 0 <= i < r0.len() && r0[i] == s;
                            assert(r@[i] == s);
                        }
                        if exists|j: int| 0 <= j < k + 1 && #[trigger] pairs@[j] == (m, s) {
                            let j = choose|j: int| 0 <= j < k + 1 && #[trigger] pairs@[j] == (m, s);
                            assert(j < k);
                        }
                    }
                }
            }
        } else {
            proof {
                assert forall|s: i32| #[trigger] r@.contains(s) <==> exists|j: int| 0 <= j < k + 1 && #[trigger] pairs@[j] == (m, s) by {
                    if exists|j: int| 0 <= j < k + 1 && #[trigger] pairs@[j] == (m, s) {
                        let j = choose|j: int| 0 <= j < k + 1 && #[trigger] pairs@[j] == (m, s);
                        assert(j < k);
                    }
                }
            }
        }
        k += 1;
    }
    proof {
        assert forall|s: i32| #[trigger] r@.contains(s) <==> pairs@.contains((m, s)) by {
            if pairs@.contains((m, s)) {
                let j = choose|j: int| 0 <= j < pairs@.len() && pairs@[j] == (m, s);
                assert(pairs@[j] == (m, s));
            }
        }
    }
    r
}

/// Groups distinct (monster, sub-area) pairs by monster.
fn group_by_monster(pairs: &Vec<(i32, i32)>) -> (r: Vec<MonsterSources>)
    requires
        pairs@.no_duplicates(),
    ensures
        sources_wf(r@),
        forall|m: i32, s: i32| #[trigger] lists_pair(r@, m, s) <==> pairs@.contains((m, s)),
        forall|m: i32| #[trigger] lists_monster(r@, m) <==> exists|s: i32| #[trigger] pairs@.contains((m, s)),
{
    let mut r: Vec<MonsterSources> = Vec::new();
    let mut k: usize = 0;
    while k < pairs.len()
        invariant
            k <= pairs@.len(),
            pairs@.no_duplicates(),
            sources_wf(r@),
            forall|i: int, s: i32| 0 <= i < r@.len() ==> (#[trigger] r@[i].sub_area_ids@.contains(s) <==> pairs@.contains((r@[i].monster_id, s))),
            forall|m: i32| #[trigger] lists_monster(r@, m) <==> exists|j: int| 0 <= j < k && #[trigger] pairs@[j].0 == m,
        decreases pairs@.len() - k,
    {
        let m = pairs[k].0;
        let mut i: usize = 0;
        let mut seen = false;
        while i < r.len()
            invariant
                i <= r@.len(),
                !seen ==> forall|i2: int| 0 <= i2 < i ==> #[trigger] r@[i2].monster_id != m,
                seen ==> lists_monster(r@, m),
            decreases r@.len() - i,
        {
            if r[i].monster_id == m {
                seen = true;
            }
            i += 1;
        }
        if !seen {
            let subs = sub_areas_of(pairs, m);
            proof {
                assert(pairs@[k as int] == (m, pairs@[k as int].1));
                assert(subs@.contains(pairs@[k as int].1));
            }
            let ghost r0 = r@;
            r.push(MonsterSources { monster_id: m, sub_area_ids: subs });
            proof {
                let n = r@.len() - 1;
                assert forall|i: int| 0 <= i < n implies #[trigger] r@[i] == r0[i] by {}
                assert forall|i: int, s: i32| 0 <= i < r@.len() implies (#[trigger] r@[i].sub_area_ids@.contains(s) <==> pairs@.contains((r@[i].monster_id, s))) by {
                    if i < n {
                        assert(r@[i] == r0[i]);
                    }
                }
                assert forall|m2: i32| #[trigger] lists_monster(r@, m2) <==> exists|j: int| 0 <= j < k + 1 && #[trigger] pairs@[j].0 == m2 by {
                    if m2 == m {
                        assert(r@[n].monster_id == m);
                        assert(pairs@[k as int].0 == m);
                    } else {
                        if lists_monster(r@, m2) {
                            let i = choose|i: int| 0 <= i < r@.len() && #[trigger] r@[i].monster_id == m2;
                            assert(r0[i].monster_id == m2);
                            assert(lists_monster(r0, m2));
                        }
                        if exists|j: int| 0 <= j < k + 1 && #[trigger] pairs@[j].0 == m2 {
                            let j = choose|j: int| 0 <= j < k + 1 && #[trigger] pairs@[j].0 == m2;
                            assert(j < k);
                            assert(lists_monster(r0, m2));
                            let i = choose|i: int| 0 <= i < r0.len() && #[trigger] r0[i].monster_id == m2;
                            assert(r@[i].monster_id == m2);
                        }
                    }
                }
            }
        } else {
            proof {
                assert forall|m2: i32| #[trigger] lists_monster(r@, m2) <==> exists|j: int| 0 <= j < k + 1 && #[trigger] pairs@[j].0 == m2 by {
                    if m2 == m {
                        assert(pairs@[k as int].0 == m);
                    }
                    if exists|j: int| 0 <= j < k + 1 && #[trigger] pairs@[j].0 == m2 {
                        let j = choose|j: int| 0 <= j < k + 1 && #[trigger] pairs@[j].0 == m2;
                        if j == k {
                            assert(m2 == m);
                        }
                    }
                }
            }
        }
        k += 1;
    }
    proof {
        assert forall|m: i32, s: i32| #[trigger] lists_pair(r@, m, s) <==> pairs@.contains((m, s)) by {
            if pairs@.contains((m, s)) {
                let j = choose|j: int| 0 <= j < pairs@.len() && pairs@[j] == (m, s);
                assert(pairs@[j].0 == m);
                assert(lists_monster(r@, m));
                let i = choose|i: int| 0 <= i < r@.len() && #[trigger] r@[i].monster_id == m;
                assert(r@[i].sub_area_ids@.contains(s));
            }
        }
        assert forall|m: i32| #[trigger] lists_monster(r@, m) <==> exists|s: i32| #[trigger] pairs@.contains((m, s)) by {
            if lists_monster(r@, m) {
                let j = choose|j: int| 0 <= j < pairs@.len() && #[trigger] pairs@[j].0 == m;
                assert(pairs@.contains((m, pairs@[j].1)));
            }
            if exists|s: i32| #[trigger] pairs@.contains((m, s)) {
                let s = choose|s: i32| #[trigger] pairs@.contains((m, s));
                let j = choose|j: int| 0 <= j < pairs@.len() && pairs@[j] == (m, s);
                assert(pairs@[j].0 == m);
            }
        }
    }
    r
}

impl GameData {
    /// The monsters that drop `ingredient`, each with the sub-areas it lives
    /// in. Monsters and sub-areas missing from their tables are left out, and
    /// repeated rows collapse: each monster comes once, each of its sub-areas
    /// once.
    pub fn locate_sources(&self, ingredient: i32) -> (r: Vec<MonsterSources>)
        ensures
            sources_wf(r@),
            forall|m: i32, s: i32| #[trigger] lists_pair(r@, m, s) <==> is_source(self, ingredient, m, s),
            forall|m: i32| #[trigger] lists_monster(r@, m) <==> exists|s: i32| #[trigger] is_source(self, ingredient, m, s),
    {
        let pairs = self.source_pairs(ingredient);
        let r = group_by_monster(&pairs);
        proof {
            assert forall|m: i32| #[trigger] lists_monster(r@, m) <==> exists|s: i32| #[trigger] is_source(self, ingredient, m, s) by {
                if lists_monster(r@, m) {
                    let s = choose|s: i32| #[trigger] pairs@.contains((m, s));
                    assert(is_source(self, ingredient, m, s));
                }
                if exists|s: i32| #[trigger] is_source(self, ingredient, m, s) {
                    let s = choose|s: i32| #[trigger] is_source(self, ingredient, m, s);
                    assert(pairs@.contains((m, s)));
                }
            }
        }
        r
    }

    /// Every (monster, sub-area) pair that can supply `ingredient`, each once.
    fn source_pairs(&self, ingredient: i32) -> (r: Vec<(i32, i32)>)
        ensures
            r@.no_duplicates(),
            forall|p: (i32, i32)| #[trigger] r@.contains(p) <==> is_source(self, ingredient, p.0, p.1),
    {
        let mut pairs: Vec<(i32, i32)> = Vec::new();
        let nd = self.drop_count();
        let nh = self.habitat_count();
        let mut j: usize = 0;
        while j < nd
            invariant
                nd == self.drop_rows().len(),
                nh == self.habitat_rows().len(),
                j <= nd,
                pairs@.no_duplicates(),
                forall|p: (i32, i32)| #[trigger] pairs@.contains(p) <==> {
                    &&& is_source(self, ingredient, p.0, p.1)
                    &&& exists|j2: int| 0 <= j2 < j && #[trigger] self.drop_rows()[j2] == Drop { monster_id: p.0, item_id: ingredient }
                },
            decreases nd - j,
        {
            let drop_row = self.drop_row(j);
            let m = drop_row.monster_id;
            if drop_row.item_id == ingredient && self.has_monster(m) {
                let mut h: usize = 0;
                while h < nh
                    invariant
                        nd == self.drop_rows().len(),
                        nh == self.habitat_rows().len(),
                        j < nd,
                        h <= nh,
                        drop_row == self.drop_rows()[j as int],
                        m == drop_row.monster_id,
                        drop_row.item_id == ingredient,
                        self.monster_ids().contains(m),
                        pairs@.no_duplicates(),
                        forall|p: (i32, i32)| #[trigger] pairs@.contains(p) <==> {
                            ||| {
                                &&& is_source(self, ingredient, p.0, p.1)
                                &&& exists|j2: int| 0 <= j2 < j && #[trigger] self.drop_rows()[j2] == Drop { monster_id: p.0, item_id: ingredient }
                            }
                            ||| {
                                &&& p.0 == m
                                &&& self.sub_area_ids().contains(p.1)
                                &&& exists|h2: int| 0 <= h2 < h && #[trigger] self.habitat_rows()[h2] == MonsterSubArea { monster_id: m, sub_area_id: p.1 }
                            }
                        },
                    decreases nh - h,
                {
                    let habitat = self.habitat_row(h);
                    if habitat.monster_id == m && self.has_sub_area(habitat.sub_area_id) {
                        add_pair(&mut pairs, m, habitat.sub_area_id);
                    }
                    proof {
                        assert forall|p: (i32, i32)| #[trigger] pairs@.contains(p) <==> {
                            ||| {
                                &&& is_source(self, ingredient, p.0, p.1)
                                &&& exists|j2: int| 0 <= j2 < j && #[trigger] self.drop_rows()[j2] == Drop { monster_id: p.0, item_id: ingredient }
                            }
                            ||| {
                                &&& p.0 == m
                                &&& self.sub_area_ids().contains(p.1)
                                &&& exists|h2: int| 0 <= h2 < h + 1 && #[trigger] self.habitat_rows()[h2] == MonsterSubArea { monster_id: m, sub_area_id: p.1 }
                            }
                        } by {
                            if habitat.monster_id == m && p.0 == m && p.1 == habitat.sub_area_id && self.sub_area_ids().contains(p.1) {
                                assert(self.habitat_rows()[h as int] == MonsterSubArea { monster_id: m, sub_area_id: p.1 });
                            }
                        }
                    }
                    h += 1;
                }
                proof {
                    assert forall|p: (i32, i32)| #[trigger] pairs@.contains(p) <==> {
                        &&& is_source(self, ingredient, p.0, p.1)
                        &&& exists|j2: int| 0 <= j2 < j + 1 && #[trigger] self.drop_rows()[j2] == Drop { monster_id: p.0, item_id: ingredient }
                    } by {
                        if p.0 == m {
                            assert(self.drop_rows()[j as int] == Drop { monster_id: p.0, item_id: ingredient });
                            assert(self.drop_rows().contains(Drop { monster_id: p.0, item_id: ingredient }));
                        }
                        if pairs@.contains(p) && p.0 == m {
                            let h2 = choose|h2: int| 0 <= h2 < nh && #[trigger] self.habitat_rows()[h2] == MonsterSubArea { monster_id: m, sub_area_id: p.1 };
                            assert(self.habitat_rows().contains(MonsterSubArea { monster_id: m, sub_area_id: p.1 }));
                        }
                        if is_source(self, ingredient, p.0, p.1) && p.0 == m {
                            let h2 = choose|h2: int| 0 <= h2 < nh && self.habitat_rows()[h2] == MonsterSubArea { monster_id: m, sub_area_id: p.1 };
                            assert(self.habitat_rows()[h2] == MonsterSubArea { monster_id: m, sub_area_id: p.1 });
                        }
                    }
                }
            } else {
                proof {
                    assert forall|p: (i32, i32)| #[trigger] pairs@.contains(p) <==> {
                        &&& is_source(self, ingredient, p.0, p.1)
                        &&& exists|j2: int| 0 <= j2 < j + 1 && #[trigger] self.drop_rows()[j2] == Drop { monster_id: p.0, item_id: ingredient }
                    } by {
                        if is_source(self, ingredient, p.0, p.1) && self.drop_rows()[j as int] == (Drop { monster_id: p.0, item_id: ingredient }) {
                            assert(drop_row.item_id == ingredient);
                            assert(self.monster_ids().contains(m));
                        }
                    }
                }
            }
            j += 1;
        }
        proof {
            assert forall|p: (i32, i32)| #[trigger] pairs@.contains(p) <==> is_source(self, ingredient, p.0, p.1) by {
                if is_source(self, ingredient, p.0, p.1) {
                    let j2 = choose|j2: int| 0 <= j2 < nd && self.drop_rows()[j2] == Drop { monster_id: p.0, item_id: ingredient };
                    assert(self.drop_rows()[j2] == Drop { monster_id: p.0, item_id: ingredient });
                }
            }
        }
        pairs
    }
}

} // verus!
