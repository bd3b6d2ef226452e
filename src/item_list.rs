use vstd::prelude::*;

use crate::error::PlanError;

verus! {

/// Largest quantity a stack can hold.
pub const QUANTITY_MAX: i16 = 32767;

/// Total quantity recorded for `id` in a sequence of (item id, quantity) entries.
pub open spec fn count_in(s: Seq<(i32, i16)>, id: i32) -> int
    decreases s.len(),
{
    if s.len() == 0 {
        0
    } else {
        count_in(s.drop_last(), id) + if s.last().0 == id {
            s.last().1 as int
        } else {
            0
        }
    }
}

/// Entries strictly increasing by item id, every quantity positive.
pub open spec fn sorted_positive(s: Seq<(i32, i16)>) -> bool {
    &&& forall|i: int, j: int| 0 <= i < j < s.len() ==> s[i].0 < s[j].0
    &&& forall|i: int| 0 <= i < s.len() ==> s[i].1 > 0
}

pub proof fn lemma_count_absent(s: Seq<(i32, i16)>, id: i32)
    requires
        forall|j: int| 0 <= j < s.len() ==> s[j].0 != id,
    ensures
        count_in(s, id) == 0,
    decreases s.len(),
{
    if s.len() > 0 {
        lemma_count_absent(s.drop_last(), id);
    }
}

pub proof fn lemma_count_at(s: Seq<(i32, i16)>, k: int)
    requires
        sorted_positive(s),
        0 <= k < s.len(),
    ensures
        count_in(s, s[k].0) == s[k].1,
    decreases s.len(),
{
    let id = s[k].0;
    if k == s.len() - 1 {
        lemma_count_absent(s.drop_last(), id);
    } else {
        lemma_count_at(s.drop_last(), k);
    }
}

pub proof fn lemma_count_concat(a: Seq<(i32, i16)>, b: Seq<(i32, i16)>, id: i32)
    ensures
        count_in(a + b, id) == count_in(a, id) + count_in(b, id),
    decreases b.len(),
{
    if b.len() == 0 {
        assert(a + b =~= a);
    } else {
        assert((a + b).drop_last() =~= a + b.drop_last());
        lemma_count_concat(a, b.drop_last(), id);
    }
}

pub proof fn lemma_count_single(e: (i32, i16), id: i32)
    ensures
        count_in(seq![e], id) == if e.0 == id {
            e.1 as int
        } else {
            0
        },
{
    let s = seq![e];
    assert(s.drop_last() =~= Seq::<(i32, i16)>::empty());
    assert(count_in(s.drop_last(), id) == 0);
    assert(s.last() == e);
}

pub proof fn lemma_count_remove(s: Seq<(i32, i16)>, p: int)
    requires
        0 <= p < s.len(),
    ensures
        forall|x: i32| #[trigger] count_in(s.remove(p), x) == count_in(s, x) - count_in(seq![s[p]], x),
{
    assert forall|x: i32| #[trigger] count_in(s.remove(p), x) == count_in(s, x) - count_in(seq![s[p]], x) by {
        assert(s.remove(p) =~= s.take(p) + s.skip(p + 1));
        lemma_count_concat(s.take(p), s.skip(p + 1), x);
        lemma_count_split(s, p, x);
    }
}

pub proof fn lemma_count_update(s: Seq<(i32, i16)>, p: int, e: (i32, i16))
    requires
        0 <= p < s.len(),
    ensures
        forall|x: i32| #[trigger] count_in(s.update(p, e), x) == count_in(s, x) - count_in(seq![s[p]], x) + count_in(seq![e], x),
{
    assert forall|x: i32| #[trigger] count_in(s.update(p, e), x) == count_in(s, x) - count_in(seq![s[p]], x) + count_in(seq![e], x) by {
        let t = s.update(p, e);
        lemma_count_split(s, p, x);
        lemma_count_split(t, p, x);
        assert(t.take(p) =~= s.take(p));
        assert(t.skip(p + 1) =~= s.skip(p + 1));
    }
}

pub proof fn lemma_count_insert(s: Seq<(i32, i16)>, p: int, e: (i32, i16))
    requires
        0 <= p <= s.len(),
    ensures
        forall|x: i32| #[trigger] count_in(s.insert(p, e), x) == count_in(s, x) + count_in(seq![e], x),
{
    assert forall|x: i32| #[trigger] count_in(s.insert(p, e), x) == count_in(s, x) + count_in(seq![e], x) by {
        let t = s.insert(p, e);
        lemma_count_split(t, p, x);
        assert(t.take(p) =~= s.take(p));
        assert(t.skip(p + 1) =~= s.skip(p));
        assert(s =~= s.take(p) + s.skip(p));
        lemma_count_concat(s.take(p), s.skip(p), x);
    }
}

pub proof fn lemma_insert_sorted(s: Seq<(i32, i16)>, p: int, e: (i32, i16))
    requires
        sorted_positive(s),
        0 <= p <= s.len(),
        e.1 > 0,
        forall|j: int| 0 <= j < p ==> s[j].0 < e.0,
        forall|j: int| p <= j < s.len() ==> s[j].0 > e.0,
    ensures
        sorted_positive(s.insert(p, e)),
{
    let t = s.insert(p, e);
    assert forall|j: int, k: int| 0 <= j < k < t.len() implies t[j].0 < t[k].0 by {
        if k < p {
        } else if j < p && k == p {
        } else if j < p {
            assert(t[k] == s[k - 1]);
        } else if j == p {
            assert(t[k] == s[k - 1]);
        } else {
            assert(t[k] == s[k - 1]);
            assert(t[j] == s[j - 1]);
        }
    }
}

/// Counts in `s` split around position `p`.
pub proof fn lemma_count_split(s: Seq<(i32, i16)>, p: int, id: i32)
    requires
        0 <= p < s.len(),
    ensures
        count_in(s, id) == count_in(s.take(p), id) + count_in(seq![s[p]], id) + count_in(s.skip(p + 1), id),
{
    assert(s =~= s.take(p) + seq![s[p]] + s.skip(p + 1));
    lemma_count_concat(s.take(p) + seq![s[p]], s.skip(p + 1), id);
    lemma_count_concat(s.take(p), seq![s[p]], id);
}

/// In a well-formed list the count of an item is its entry's quantity, or zero.
pub proof fn lemma_count_of(s: Seq<(i32, i16)>, id: i32)
    requires
        sorted_positive(s),
    ensures
        count_in(s, id) >= 0,
        count_in(s, id) <= QUANTITY_MAX,
        count_in(s, id) > 0 <==> exists|j: int| 0 <= j < s.len() && s[j].0 == id,
{
    if exists|j: int| 0 <= j < s.len() && s[j].0 == id {
        let j = choose|j: int| 0 <= j < s.len() && s[j].0 == id;
        lemma_count_at(s, j);
    } else {
        lemma_count_absent(s, id);
    }
}

/// The quantity that the last entry for `id` in `s` gives it, zero for
/// none; a negative quantity counts as zero.
pub open spec fn assigned(s: Seq<(i32, i16)>, id: i32) -> int
    decreases s.len(),
{
    if s.len() == 0 {
        0
    } else if s.last().0 == id {
        if s.last().1 < 0 { 0 } else { s.last().1 as int }
    } else {
        assigned(s.drop_last(), id)
    }
}

/// A multiset of items: item id to a positive quantity. An item whose
/// quantity is zero has no entry.
pub struct ItemList {
    entries: Vec<(i32, i16)>,
}

impl View for ItemList {
    type V = Seq<(i32, i16)>;

    closed spec fn view(&self) -> Seq<(i32, i16)> {
        self.entries@
    }
}

impl ItemList {
    pub open spec fn wf(&self) -> bool {
        sorted_positive(self@)
    }

    /// Quantity of `id` in the list, zero when absent.
    pub open spec fn count(&self, id: i32) -> int {
        count_in(self@, id)
    }

    pub open spec fn is_empty_spec(&self) -> bool {
        forall|id: i32| #[trigger] self.count(id) == 0
    }

    pub proof fn lemma_wf_count(&self, id: i32)
        requires
            self.wf(),
        ensures
            0 <= self.count(id) <= QUANTITY_MAX,
            self.count(id) > 0 <==> exists|j: int| 0 <= j < self@.len() && self@[j].0 == id,
    {
        lemma_count_of(self@, id);
    }

    pub proof fn lemma_empty_iff(&self)
        requires
            self.wf(),
        ensures
            self.is_empty_spec() <==> self@.len() == 0,
    {
        if self@.len() > 0 {
            lemma_count_at(self@, 0);
            assert(self.count(self@[0].0) != 0);
        } else {
            assert forall|id: i32| #[trigger] self.count(id) == 0 by {
                lemma_count_absent(self@, id);
            }
        }
    }

    pub fn new() -> (r: ItemList)
        ensures
            r.wf(),
            r@.len() == 0,
            r.is_empty_spec(),
    {
        let r = ItemList { entries: Vec::new() };
        proof {
            r.lemma_empty_iff();
        }
        r
    }

    /// A list holding, for each item, the quantity of its last entry in
    /// `entries`; items whose quantity is zero or less are left out.
    pub fn with_items(entries: Vec<(i32, i16)>) -> (r: ItemList)
        ensures
            r.wf(),
            forall|x: i32| #[trigger] r.count(x) == assigned(entries@, x),
    {
        let mut r = ItemList::new();
        let mut k: usize = 0;
        while k < entries.len()
            invariant
                k <= entries@.len(),
                r.wf(),
                forall|x: i32| #[trigger] r.count(x) == assigned(entries@.take(k as int), x),
            decreases entries@.len() - k,
        {
            let (id, q) = entries[k];
            let v: i16 = if q < 0 { 0 } else { q };
            r.set_item(id, v);
            proof {
                assert(entries@.take(k + 1).drop_last() =~= entries@.take(k as int));
                assert(entries@.take(k + 1).last() == (id, q));
            }
            k += 1;
        }
        proof {
            assert(entries@.take(entries@.len() as int) =~= entries@);
        }
        r
    }

    pub fn len(&self) -> (r: usize)
        ensures
            r == self@.len(),
    {
        self.entries.len()
    }

    pub fn is_empty(&self) -> (r: bool)
        requires
            self.wf(),
        ensures
            r == (self@.len() == 0),
            r == self.is_empty_spec(),
    {
        proof {
            self.lemma_empty_iff();
        }
        self.entries.len() == 0
    }

    /// The entry at position `i`, in increasing order of item id.
    pub fn entry(&self, i: usize) -> (r: (i32, i16))
        requires
            i < self@.len(),
        ensures
            r == self@[i as int],
    {
        self.entries[i]
    }

    /// All entries, in increasing order of item id.
    pub fn to_vec(&self) -> (r: Vec<(i32, i16)>)
        ensures
            r@ == self@,
    {
        let mut r: Vec<(i32, i16)> = Vec::new();
        let mut i: usize = 0;
        while i < self.entries.len()
            invariant
                i <= self@.len(),
                self@ == self.entries@,
                r@ == self@.take(i as int),
            decreases self@.len() - i,
        {
            r.push(self.entries[i]);
            i += 1;
            proof {
                assert(r@ =~= self@.take(i as int));
            }
        }
        proof {
            assert(self@.take(i as int) =~= self@);
        }
        r
    }

    /// A copy of this list.
    pub fn duplicate(&self) -> (r: ItemList)
        ensures
            r@ == self@,
    {
        ItemList { entries: self.to_vec() }
    }

    /// First position whose item id is not below `id`.
    fn position(&self, id: i32) -> (r: usize)
        requires
            self.wf(),
        ensures
            r <= self@.len(),
            forall|j: int| 0 <= j < r ==> self@[j].0 < id,
            forall|j: int| r <= j < self@.len() ==> self@[j].0 >= id,
    {
        let mut i: usize = 0;
        while i < self.entries.len() && self.entries[i].0 < id
            invariant
                i <= self@.len(),
                self@ == self.entries@,
                forall|j: int| 0 <= j < i ==> self@[j].0 < id,
            decreases self@.len() - i,
        {
            i += 1;
        }
        proof {
            if i < self@.len() {
                assert forall|j: int| i <= j < self@.len() implies self@[j].0 >= id by {
                    if j > i {
                        assert(self@[i as int].0 < self@[j].0);
                    }
                }
            }
        }
        i
    }

    /// Quantity of `id`, zero when the list holds none.
    pub fn get(&self, id: i32) -> (r: i16)
        requires
            self.wf(),
        ensures
            r as int == self.count(id),
            r >= 0,
    {
        let p = self.position(id);
        proof {
            lemma_count_of(self@, id);
        }
        if p < self.entries.len() && self.entries[p].0 == id {
            proof {
                lemma_count_at(self@, p as int);
            }
            self.entries[p].1
        } else {
            proof {
                lemma_count_absent(self@, id);
            }
            0
        }
    }

    /// Overwrites the quantity of `id`; a quantity of zero removes the entry.
    pub fn set_item(&mut self, id: i32, quantity: i16)
        requires
            old(self).wf(),
            quantity >= 0,
        ensures
            final(self).wf(),
            final(self).count(id) == quantity,
            forall|x: i32| x != id ==> #[trigger] final(self).count(x) == old(self).count(x),
    {
        let p = self.position(id);
        let ghost s0 = self@;
        proof {
            lemma_count_of(s0, id);
            lemma_count_single((id, quantity), id);
        }
        if p < self.entries.len() && self.entries[p].0 == id {
            proof {
                lemma_count_at(s0, p as int);
                lemma_count_single(s0[p as int], id);
                assert forall|x: i32| x != id implies #[trigger] count_in(seq![s0[p as int]], x) == 0
                    && count_in(seq![(id, quantity)], x) == 0 by {
                    lemma_count_single(s0[p as int], x);
                    lemma_count_single((id, quantity), x);
                }
            }
            if quantity == 0 {
                self.entries.remove(p);
                proof {
                    lemma_count_remove(s0, p as int);
                }
            } else {
                self.entries.set(p, (id, quantity));
                proof {
                    lemma_count_update(s0, p as int, (id, quantity));
                }
            }
        } else {
            proof {
                assert forall|j: int| 0 <= j < s0.len() implies s0[j].0 != id by {
                    if j > p {
                        assert(s0[p as int].0 < s0[j].0);
                    }
                }
                lemma_count_absent(s0, id);
            }
            if quantity > 0 {
                self.entries.insert(p, (id, quantity));
                proof {
                    lemma_insert_sorted(s0, p as int, (id, quantity));
                    lemma_count_insert(s0, p as int, (id, quantity));
                    assert forall|x: i32| x != id implies #[trigger] count_in(seq![(id, quantity)], x) == 0 by {
                        lemma_count_single((id, quantity), x);
                    }
                }
            }
        }
    }

    /// Adds `quantity` to the quantity of `id`.
    pub fn add_item(&mut self, id: i32, quantity: i16) -> (r: Result<(), PlanError>)
        requires
            old(self).wf(),
            quantity >= 0,
        ensures
            final(self).wf(),
            r is Ok <==> old(self).count(id) + quantity <= QUANTITY_MAX,
            r is Ok ==> final(self).count(id) == old(self).count(id) + quantity,
            r is Ok ==> forall|x: i32| x != id ==> #[trigger] final(self).count(x) == old(self).count(x),
            r is Err ==> r == Err::<(), PlanError>(PlanError::QuantityOverflow) && final(self)@ == old(self)@,
    {
        let current = self.get(id);
        if current > QUANTITY_MAX - quantity {
            return Err(PlanError::QuantityOverflow);
        }
        self.set_item(id, current + quantity);
        Ok(())
    }

    /// Adds `factor` times every quantity of `other` to this list. Nothing
    /// changes when a sum would leave the range of a quantity.
    pub fn add_items_times(&mut self, other: &ItemList, factor: i16) -> (r: Result<(), PlanError>)
        requires
            old(self).wf(),
            other.wf(),
            factor >= 0,
        ensures
            final(self).wf(),
            r is Ok <==> forall|x: i32| #[trigger] old(self).count(x) + factor * other.count(x) <= QUANTITY_MAX,
            r is Ok ==> forall|x: i32| #[trigger] final(self).count(x) == old(self).count(x) + factor * other.count(x),
            r is Err ==> r == Err::<(), PlanError>(PlanError::QuantityOverflow) && final(self)@ == old(self)@,
    {
        let n = other.entries.len();
        let mut i: usize = 0;
        while i < n
            invariant
                n == other@.len(),
                other.wf(),
                self.wf(),
                0 <= factor,
                i <= n,
                self@ == old(self)@,
                forall|j: int| 0 <= j < i ==> #[trigger] self.count(other@[j].0) + factor * other@[j].1 <= QUANTITY_MAX,
            decreases n - i,
        {
            let (id, q) = other.entries[i];
            let have = self.get(id);
            proof {
                assert(0 <= factor as int * q as int <= 32767 * 32767) by (nonlinear_arith)
                    requires 0 <= factor <= 32767, 0 < q <= 32767;
            }
            let total: i32 = have as i32 + factor as i32 * q as i32;
            if total > QUANTITY_MAX as i32 {
                proof {
                    lemma_count_at(other@, i as int);
                    assert(old(self).count(id) + factor * other.count(id) > QUANTITY_MAX);
                }
                return Err(PlanError::QuantityOverflow);
            }
            i += 1;
        }
        let ghost start = self@;
        proof {
            assert forall|x: i32| #[trigger] count_in(start, x) + factor * other.count(x) <= QUANTITY_MAX by {
                lemma_count_of(other@, x);
                lemma_count_of(old(self)@, x);
                if other.count(x) > 0 {
                    let j = choose|j: int| 0 <= j < other@.len() && other@[j].0 == x;
                    lemma_count_at(other@, j);
                    assert(self.count(other@[j].0) + factor * other@[j].1 <= QUANTITY_MAX);
                } else {
                    let c = other.count(x);
                    assert(factor * c == 0) by (nonlinear_arith)
                        requires c == 0;
                }
            }
        }
        let mut k: usize = 0;
        while k < n
            invariant
                n == other@.len(),
                other.wf(),
                self.wf(),
                0 <= factor,
                k <= n,
                sorted_positive(start),
                old(self)@ == start,
                forall|x: i32| #[trigger] count_in(start, x) + factor * other.count(x) <= QUANTITY_MAX,
                forall|x: i32| #[trigger] self.count(x) == count_in(start, x) + factor * count_in(other@.take(k as int), x),
            decreases n - k,
        {
            let (id, q) = other.entries[k];
            proof {
                let t = other@.take(k as int + 1);
                assert(t.drop_last() == other@.take(k as int));
                assert forall|j: int| 0 <= j < k implies other@.take(k as int)[j].0 != id by {
                    assert(other@[j].0 < other@[k as int].0);
                }
                lemma_count_absent(other@.take(k as int), id);
                lemma_count_at(other@, k as int);
                lemma_count_of(start, id);
                assert(factor * q >= 0) by (nonlinear_arith)
                    requires factor >= 0, q > 0;
            }
            let have = self.get(id);
            proof {
                assert(0 <= factor as int * q as int <= 32767 * 32767) by (nonlinear_arith)
                    requires 0 <= factor <= 32767, 0 < q <= 32767;
            }
            let add: i32 = factor as i32 * q as i32;
            proof {
                assert(self.count(id) == count_in(start, id));
                assert(count_in(start, id) + factor * other.count(id) <= QUANTITY_MAX);
            }
            let total: i16 = (have as i32 + add) as i16;
            self.set_item(id, total);
            proof {
                assert forall|x: i32| #[trigger] self.count(x) == count_in(start, x) + factor * count_in(other@.take(k as int + 1), x) by {
                    let t = other@.take(k as int + 1);
                    assert(t.drop_last() == other@.take(k as int));
                    if x == id {
                    } else {
                    }
                }
            }
            k += 1;
        }
        proof {
            assert(other@.take(n as int) == other@);
        }
        Ok(())
    }

    /// Adds every quantity of `other` to this list.
    pub fn add_items(&mut self, other: &ItemList) -> (r: Result<(), PlanError>)
        requires
            old(self).wf(),
            other.wf(),
        ensures
            final(self).wf(),
            r is Ok <==> forall|x: i32| #[trigger] old(self).count(x) + other.count(x) <= QUANTITY_MAX,
            r is Ok ==> forall|x: i32| #[trigger] final(self).count(x) == old(self).count(x) + other.count(x),
            r is Err ==> r == Err::<(), PlanError>(PlanError::QuantityOverflow) && final(self)@ == old(self)@,
    {
        self.add_items_times(other, 1)
    }

    /// Removes and returns the entry with the smallest item id.
    pub fn pop_first(&mut self) -> (r: Option<(i32, i16)>)
        requires
            old(self).wf(),
        ensures
            final(self).wf(),
            old(self)@.len() == 0 ==> r is None && final(self)@ == old(self)@,
            old(self)@.len() > 0 ==> r == Some(old(self)@[0]) && final(self)@ == old(self)@.drop_first(),
            r matches Some(e) ==> e.1 > 0 && old(self).count(e.0) == e.1 && final(self).count(e.0) == 0,
            r matches Some(e) ==> forall|x: i32| x != e.0 ==> #[trigger] final(self).count(x) == old(self).count(x),
    {
        if self.entries.len() == 0 {
            return None;
        }
        let e = self.entries.remove(0);
        proof {
            let s0 = old(self)@;
            let s1 = self@;
            assert(s1 =~= s0.drop_first());
            lemma_count_at(s0, 0);
            assert forall|j: int| 0 <= j < s1.len() implies s1[j].0 != e.0 by {
                assert(s0[0].0 < s0[j + 1].0);
            }
            lemma_count_absent(s1, e.0);
            assert forall|x: i32| x != e.0 implies #[trigger] count_in(s1, x) == count_in(s0, x) by {
                if exists|j: int| 0 <= j < s0.len() && s0[j].0 == x {
                    let j = choose|j: int| 0 <= j < s0.len() && s0[j].0 == x;
                    lemma_count_at(s0, j);
                    lemma_count_at(s1, j - 1);
                } else {
                    lemma_count_absent(s0, x);
                    lemma_count_absent(s1, x);
                }
            }
        }
        Some(e)
    }
}

/// The quantities of a list, as a function of the item id.
pub open spec fn counts(l: ItemList) -> spec_fn(i32) -> int {
    |y: i32| l.count(y)
}

} // verus!
