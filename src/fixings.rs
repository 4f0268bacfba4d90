//! The fixings collected during a spot-date shift, grouped by identifier.
use vstd::prelude::*;
use crate::dates::DateTime;

verus! {

/// `k` is the position of identifier `id` in the grouped fixings `m`.
pub open spec fn key_at<V>(m: Seq<(Seq<char>, Seq<(DateTime, V)>)>, id: Seq<char>, k: int) -> bool {
    0 <= k < m.len() && m[k].0 == id
}

/// No identifier occurs twice among the grouped fixings `m`.
pub open spec fn keys_unique<V>(m: Seq<(Seq<char>, Seq<(DateTime, V)>)>) -> bool {
    forall|i: int, j: int| 0 <= i < m.len() && 0 <= j < m.len() && i != j ==> m[i].0 != m[j].0
}

/// `m` with the fixing `x` appended to the series of `id`; an identifier not
/// seen before starts a new series at the end, so that discovery order is kept.
pub open spec fn with_fixing<V>(
    m: Seq<(Seq<char>, Seq<(DateTime, V)>)>,
    id: Seq<char>,
    x: (DateTime, V),
) -> Seq<(Seq<char>, Seq<(DateTime, V)>)> {
    if exists|k: int| key_at(m, id, k) {
        let k = choose|k: int| key_at(m, id, k);
        m.update(k, (id, m[k].1.push(x)))
    } else {
        m.push((id, seq![x]))
    }
}

/// A mapping from identifier to the ordered series of `(date-time, value)`
/// fixings of that identifier, each identifier once.
pub struct FixingMap<V> {
    ids: Vec<String>,
    series: Vec<Vec<(DateTime, V)>>,
}

impl<V> View for FixingMap<V> {
    type V = Seq<(Seq<char>, Seq<(DateTime, V)>)>;

    closed spec fn view(&self) -> Seq<(Seq<char>, Seq<(DateTime, V)>)> {
        Seq::new(self.ids@.len(), |i: int| (self.ids@[i]@, self.series@[i]@))
    }
}

impl<V> FixingMap<V> {
    /// The map is well formed: one series per identifier.
    pub closed spec fn wf(&self) -> bool {
        &&& self.ids@.len() == self.series@.len()
        &&& keys_unique(self@)
    }

    /// A well-formed map holds each identifier once.
    pub proof fn lemma_keys_unique(&self)
        requires
            self.wf(),
        ensures
            keys_unique(self@),
    {
    }

    pub fn new() -> (r: FixingMap<V>)
        ensures
            r.wf(),
            r@ == Seq::<(Seq<char>, Seq<(DateTime, V)>)>::empty(),
    {
        let r = FixingMap { ids: Vec::new(), series: Vec::new() };
        assert(r@ =~= Seq::<(Seq<char>, Seq<(DateTime, V)>)>::empty());
        r
    }

    pub fn len(&self) -> (r: usize)
        requires
            self.wf(),
        ensures
            r == self@.len(),
    {
        self.ids.len()
    }

    pub fn is_empty(&self) -> (r: bool)
        requires
            self.wf(),
        ensures
            r == (self@.len() == 0),
    {
        self.ids.len() == 0
    }

    /// The identifier of the `k`-th series.
    pub fn id(&self, k: usize) -> (r: &String)
        requires
            self.wf(),
            k < self@.len(),
        ensures
            r@ == self@[k as int].0,
    {
        &self.ids[k]
    }

    /// The `k`-th series of fixings.
    pub fn fixings(&self, k: usize) -> (r: &Vec<(DateTime, V)>)
        requires
            self.wf(),
            k < self@.len(),
        ensures
            r@ == self@[k as int].1,
    {
        &self.series[k]
    }

    /// Appends the fixing `(fixing, value)` to the series of `id`, which is
    /// created at the end if `id` has none yet.
    pub fn add(&mut self, id: &String, fixing: DateTime, value: V)
        requires
            old(self).wf(),
        ensures
            final(self).wf(),
            final(self)@ == with_fixing(old(self)@, id@, (fixing, value)),
    {
        let ghost m = self@;
        let ghost x = (fixing, value);
        let n = self.ids.len();
        let mut k: usize = 0;
        while k < n && !(self.ids[k] == *id)
            invariant
                self.wf(),
                self@ == m,
                n == m.len(),
                k <= n,
                forall|j: int| 0 <= j < k ==> m[j].0 != id@,
            decreases n - k,
        {
            k = k + 1;
        }
        if k < n {
            assert(key_at(m, id@, k as int));
            let ghost c = choose|c: int| key_at(m, id@, c);
            assert(c == k as int);
            let mut s = self.series.remove(k);
            s.push((fixing, value));
            self.series.insert(k, s);
            assert(self@ =~= with_fixing(m, id@, x));
        } else {
            assert(!exists|c: int| key_at(m, id@, c));
            self.ids.push(id.clone());
            let mut s = Vec::new();
            s.push((fixing, value));
            self.series.push(s);
            assert(self@ =~= with_fixing(m, id@, x));
        }
    }
}

} // verus!
