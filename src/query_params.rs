use vstd::prelude::*;
use vstd::string::StringExecFns;

verus! {

/// One `key=value` piece of a query string.
pub open spec fn piece(key: Seq<char>, value: Seq<char>) -> Seq<char> {
    key + seq!['='] + value
}

/// The pieces of one parameter, one per value.
pub open spec fn pieces_of_param(key: Seq<char>, values: Seq<Seq<char>>) -> Seq<Seq<char>>
    decreases values.len(),
{
    if values.len() == 0 {
        Seq::empty()
    } else {
        pieces_of_param(key, values.drop_last()).push(piece(key, values.last()))
    }
}

/// The pieces of all parameters, in order.
pub open spec fn pieces(params: Seq<(Seq<char>, Seq<Seq<char>>)>) -> Seq<Seq<char>>
    decreases params.len(),
{
    if params.len() == 0 {
        Seq::empty()
    } else {
        pieces(params.drop_last()) + pieces_of_param(params.last().0, params.last().1)
    }
}

/// Pieces joined by `&`.
pub open spec fn join(ps: Seq<Seq<char>>) -> Seq<char>
    decreases ps.len(),
{
    if ps.len() == 0 {
        Seq::empty()
    } else if ps.len() == 1 {
        ps[0]
    } else {
        join(ps.drop_last()) + seq!['&'] + ps.last()
    }
}

/// Parameters of a URL query: each key once, with its values in the order
/// they were added, keys in the order they first appeared.
pub struct QueryParams {
    inner: Vec<(String, Vec<String>)>,
}

pub open spec fn values_view(v: Seq<String>) -> Seq<Seq<char>> {
    v.map_values(|s: String| s@)
}

impl View for QueryParams {
    type V = Seq<(Seq<char>, Seq<Seq<char>>)>;

    closed spec fn view(&self) -> Seq<(Seq<char>, Seq<Seq<char>>)> {
        self.inner@.map_values(|e: (String, Vec<String>)| (e.0@, values_view(e.1@)))
    }
}

/// Each key appears once.
pub open spec fn keys_unique(p: Seq<(Seq<char>, Seq<Seq<char>>)>) -> bool {
    forall|i: int, j: int| 0 <= i < j < p.len() ==> p[i].0 != p[j].0
}

/// Some parameter has key `key`.
pub open spec fn has_key(p: Seq<(Seq<char>, Seq<Seq<char>>)>, key: Seq<char>) -> bool {
    exists|i: int| 0 <= i < p.len() && #[trigger] p[i].0 == key
}

impl QueryParams {
    pub open spec fn wf(&self) -> bool {
        keys_unique(self@)
    }

    pub fn new() -> (r: QueryParams)
        ensures
            r.wf(),
            r@.len() == 0,
    {
        let r = QueryParams { inner: Vec::new() };
        proof {
            assert(r@ =~= Seq::<(Seq<char>, Seq<Seq<char>>)>::empty());
        }
        r
    }

    /// Position of `key`, or the number of parameters when it is absent.
    fn position(&self, key: &str) -> (r: usize)
        requires
            self.wf(),
        ensures
            r <= self@.len(),
            r < self@.len() ==> self@[r as int].0 == key@,
            r == self@.len() ==> !has_key(self@, key@),
    {
        let mut i: usize = 0;
        while i < self.inner.len()
            invariant
                i <= self@.len(),
                self@.len() == self.inner@.len(),
                forall|j: int| 0 <= j < i ==> #[trigger] self@[j].0 != key@,
            decreases self@.len() - i,
        {
            let k: &str = self.inner[i].0.as_str();
            proof {
                assert(self@[i as int].0 == self.inner@[i as int].0@);
            }
            if str_eq(k, key) {
                return i;
            }
            i += 1;
        }
        i
    }

    /// Replaces every value of `key` by `value`.
    pub fn set_param(&mut self, key: &str, value: &str)
        requires
            old(self).wf(),
        ensures
            final(self).wf(),
            has_key(old(self)@, key@) ==> exists|i: int| 0 <= i < old(self)@.len() && old(self)@[i].0 == key@
                && #[trigger] final(self)@ == old(self)@.update(i, (key@, seq![value@])),
            !has_key(old(self)@, key@) ==> final(self)@ == old(self)@.push((key@, seq![value@])),
    {
        let p = self.position(key);
        let mut values: Vec<String> = Vec::new();
        values.push(value.to_owned());
        proof {
            assert(values_view(values@) =~= seq![value@]);
        }
        if p < self.inner.len() {
            self.inner.set(p, (key.to_owned(), values));
            proof {
                assert(self@ =~= old(self)@.update(p as int, (key@, seq![value@])));
            }
        } else {
            self.inner.push((key.to_owned(), values));
            proof {
                assert(self@ =~= old(self)@.push((key@, seq![value@])));
            }
        }
    }

    /// Appends `value` to the values of `key`.
    pub fn add_param(&mut self, key: &str, value: &str)
        requires
            old(self).wf(),
        ensures
            final(self).wf(),
            has_key(old(self)@, key@) ==> exists|i: int| 0 <= i < old(self)@.len() && old(self)@[i].0 == key@
                && #[trigger] final(self)@ == old(self)@.update(i, (key@, old(self)@[i].1.push(value@))),
            !has_key(old(self)@, key@) ==> final(self)@ == old(self)@.push((key@, seq![value@])),
    {
        let p = self.position(key);
        if p < self.inner.len() {
            let mut values: Vec<String> = clone_values(&self.inner[p].1);
            values.push(value.to_owned());
            proof {
                assert(values_view(values@) =~= old(self)@[p as int].1.push(value@));
            }
            self.inner.set(p, (key.to_owned(), values));
            proof {
                assert(self@ =~= old(self)@.update(p as int, (key@, old(self)@[p as int].1.push(value@))));
            }
        } else {
            let mut values: Vec<String> = Vec::new();
            values.push(value.to_owned());
            proof {
                assert(values_view(values@) =~= seq![value@]);
            }
            self.inner.push((key.to_owned(), values));
            proof {
                assert(self@ =~= old(self)@.push((key@, seq![value@])));
            }
        }
    }

    /// Removes `key` and its values.
    pub fn remove_param(&mut self, key: &str)
        requires
            old(self).wf(),
            has_key(old(self)@, key@),
        ensures
            final(self).wf(),
            exists|i: int| 0 <= i < old(self)@.len() && old(self)@[i].0 == key@
                && #[trigger] final(self)@ == old(self)@.remove(i),
    {
        let p = self.position(key);
        self.inner.remove(p);
        proof {
            assert(self@ =~= old(self)@.remove(p as int));
        }
    }

    /// `key=value` for every value of every key, joined by `&`.
    pub fn to_query_string(&self) -> (r: String)
        ensures
            r@ == join(pieces(self@)),
    {
        let mut out = String::new();
        let ghost mut done: Seq<Seq<char>> = Seq::empty();
        let mut first = true;
        let mut i: usize = 0;
        while i < self.inner.len()
            invariant
                i <= self@.len(),
                self@.len() == self.inner@.len(),
                done == pieces(self@.take(i as int)),
                out@ == join(done),
                first == (done.len() == 0),
            decreases self@.len() - i,
        {
            let key: &str = self.inner[i].0.as_str();
            let values: &Vec<String> = &self.inner[i].1;
            let ghost entry = self@[i as int];
            proof {
                assert(entry.0 == key@);
                assert(entry.1 == values_view(values@));
            }
            let ghost start = done;
            let mut j: usize = 0;
            while j < values.len()
                invariant
                    j <= values@.len(),
                    entry.0 == key@,
                    entry.1 == values_view(values@),
                    done == start + pieces_of_param(key@, entry.1.take(j as int)),
                    out@ == join(done),
                    first == (done.len() == 0),
                decreases values@.len() - j,
            {
                let ghost before = out@;
                if !first {
                    out.append("&");
                }
                first = false;
                out.append(key);
                out.append("=");
                out.append(values[j].as_str());
                proof {
                    reveal_strlit("&");
                    reveal_strlit("=");
                    let p = piece(key@, values@[j as int]@);
                    assert(entry.1.take(j + 1).drop_last() =~= entry.1.take(j as int));
                    assert(entry.1.take(j + 1).last() == values@[j as int]@);
                    let next = done.push(p);
                    assert(next.drop_last() =~= done);
                    if done.len() > 0 {
                        assert(out@ =~= join(done) + seq!['&'] + p);
                    } else {
                        assert(out@ =~= p);
                    }
                    assert(start + pieces_of_param(key@, entry.1.take(j + 1)) =~= next);
                    done = next;
                }
                j += 1;
            }
            proof {
                assert(entry.1.take(values@.len() as int) =~= entry.1);
                assert(self@.take(i + 1).drop_last() =~= self@.take(i as int));
                assert(self@.take(i + 1).last() == entry);
            }
            i += 1;
        }
        proof {
            assert(self@.take(self@.len() as int) =~= self@);
        }
        out
    }
}

/// Compares two strings character by character.
fn str_eq(a: &str, b: &str) -> (r: bool)
    ensures
        r == (a@ == b@),
{
    let x: String = a.to_owned();
    let y: String = b.to_owned();
    x == y
}

/// A copy of a list of strings.
fn clone_values(v: &Vec<String>) -> (r: Vec<String>)
    ensures
        values_view(r@) == values_view(v@),
{
    let mut r: Vec<String> = Vec::new();
    let mut i: usize = 0;
    while i < v.len()
        invariant
            i <= v@.len(),
            r@ =~= v@.take(i as int),
        decreases v@.len() - i,
    {
        r.push(v[i].clone());
        proof {
            assert(r@ =~= v@.take(i + 1));
        }
        i += 1;
    }
    proof {
        assert(v@.take(v@.len() as int) =~= v@);
    }
    r
}

} // verus!
