//! Card-quantity tables: the common model behind a player's collection and a
//! deck's contents.
//!
//! A table is modelled as a sequence of (identifier, quantity) pairs. The
//! spec functions below also serve for parsed card specifications, where the
//! same identifier may occur more than once; `qty_of` therefore sums every
//! pair that names the key.

use vstd::prelude::*;

verus! {

/// The quantity a single pair contributes to the key `k`.
pub open spec fn key_qty(p: (Seq<char>, int), k: Seq<char>) -> int {
    if p.0 == k {
        p.1
    } else {
        0
    }
}

/// Total quantity the pairs of `s` attribute to the key `k`.
pub open spec fn qty_of(s: Seq<(Seq<char>, int)>, k: Seq<char>) -> int
    decreases s.len(),
{
    if s.len() == 0 {
        0
    } else {
        key_qty(s[0], k) + qty_of(s.drop_first(), k)
    }
}

/// Sum of all quantities in `s`.
pub open spec fn total_of(s: Seq<(Seq<char>, int)>) -> int
    decreases s.len(),
{
    if s.len() == 0 {
        0
    } else {
        s[0].1 + total_of(s.drop_first())
    }
}

/// Whether some pair of `s` names the key `k`.
pub open spec fn has_key(s: Seq<(Seq<char>, int)>, k: Seq<char>) -> bool {
    exists|i: int| 0 <= i < s.len() && s[i].0 == k
}

/// No identifier occurs twice.
pub open spec fn distinct_keys(s: Seq<(Seq<char>, int)>) -> bool {
    forall|i: int, j: int| 0 <= i < j < s.len() ==> s[i].0 != s[j].0
}

/// Every quantity is at least `lo`.
pub open spec fn quantities_at_least(s: Seq<(Seq<char>, int)>, lo: int) -> bool {
    forall|i: int| 0 <= i < s.len() ==> s[i].1 >= lo
}

/// Every quantity is at most `hi`.
pub open spec fn quantities_at_most(s: Seq<(Seq<char>, int)>, hi: int) -> bool {
    forall|i: int| 0 <= i < s.len() ==> s[i].1 <= hi
}

/// A well-formed table: identifiers are unique and no entry records a zero
/// or negative quantity.
pub open spec fn table_wf(s: Seq<(Seq<char>, int)>) -> bool {
    distinct_keys(s) && quantities_at_least(s, 1)
}

pub proof fn lemma_qty_concat(a: Seq<(Seq<char>, int)>, b: Seq<(Seq<char>, int)>, k: Seq<char>)
    ensures
        qty_of(a + b, k) == qty_of(a, k) + qty_of(b, k),
    decreases a.len(),
{
    if a.len() == 0 {
        assert(a + b =~= b);
    } else {
        assert((a + b).drop_first() =~= a.drop_first() + b);
        lemma_qty_concat(a.drop_first(), b, k);
    }
}

pub proof fn lemma_total_concat(a: Seq<(Seq<char>, int)>, b: Seq<(Seq<char>, int)>)
    ensures
        total_of(a + b) == total_of(a) + total_of(b),
    decreases a.len(),
{
    if a.len() == 0 {
        assert(a + b =~= b);
    } else {
        assert((a + b).drop_first() =~= a.drop_first() + b);
        lemma_total_concat(a.drop_first(), b);
    }
}

pub proof fn lemma_qty_absent(s: Seq<(Seq<char>, int)>, k: Seq<char>)
    requires
        !has_key(s, k),
    ensures
        qty_of(s, k) == 0,
    decreases s.len(),
{
    if s.len() > 0 {
        assert(s[0].0 != k);
        assert(forall|i: int| 0 <= i < s.drop_first().len() ==> s.drop_first()[i] == s[i + 1]);
        lemma_qty_absent(s.drop_first(), k);
    }
}

pub proof fn lemma_qty_nonneg(s: Seq<(Seq<char>, int)>, k: Seq<char>)
    requires
        quantities_at_least(s, 0),
    ensures
        qty_of(s, k) >= 0,
    decreases s.len(),
{
    if s.len() > 0 {
        assert(forall|i: int| 0 <= i < s.drop_first().len() ==> s.drop_first()[i] == s[i + 1]);
        lemma_qty_nonneg(s.drop_first(), k);
    }
}

pub proof fn lemma_total_nonneg(s: Seq<(Seq<char>, int)>)
    requires
        quantities_at_least(s, 0),
    ensures
        total_of(s) >= 0,
    decreases s.len(),
{
    if s.len() > 0 {
        assert(forall|i: int| 0 <= i < s.drop_first().len() ==> s.drop_first()[i] == s[i + 1]);
        lemma_total_nonneg(s.drop_first());
    }
}

pub proof fn lemma_qty_le_total(s: Seq<(Seq<char>, int)>, k: Seq<char>)
    requires
        quantities_at_least(s, 0),
    ensures
        0 <= qty_of(s, k) <= total_of(s),
    decreases s.len(),
{
    if s.len() > 0 {
        assert(forall|i: int| 0 <= i < s.drop_first().len() ==> s.drop_first()[i] == s[i + 1]);
        lemma_qty_le_total(s.drop_first(), k);
    }
}

/// Under unique keys, the entry holding `k` carries the whole quantity of `k`.
pub proof fn lemma_qty_at(s: Seq<(Seq<char>, int)>, k: Seq<char>, i: int)
    requires
        distinct_keys(s),
        0 <= i < s.len(),
        s[i].0 == k,
    ensures
        qty_of(s, k) == s[i].1,
{
    let front = s.take(i);
    let mid = seq![s[i]];
    let back = s.skip(i + 1);
    assert(s =~= front + mid + back);
    lemma_qty_concat(front + mid, back, k);
    lemma_qty_concat(front, mid, k);
    assert(qty_of(mid, k) == key_qty(s[i], k) + qty_of(mid.drop_first(), k));
    assert(mid.drop_first() =~= Seq::<(Seq<char>, int)>::empty());
    assert(!has_key(front, k));
    lemma_qty_absent(front, k);
    assert(!has_key(back, k)) by {
        assert(forall|j: int| 0 <= j < back.len() ==> back[j] == s[i + 1 + j]);
    }
    lemma_qty_absent(back, k);
}

/// Relates the quantities of a table to those of the table with entry `i`
/// replaced by the pair `p`.
pub proof fn lemma_qty_update(s: Seq<(Seq<char>, int)>, i: int, p: (Seq<char>, int), k: Seq<char>)
    requires
        0 <= i < s.len(),
    ensures
        qty_of(s.update(i, p), k) == qty_of(s, k) - key_qty(s[i], k) + key_qty(p, k),
        total_of(s.update(i, p)) == total_of(s) - s[i].1 + p.1,
{
    let front = s.take(i);
    let back = s.skip(i + 1);
    assert(s =~= front + seq![s[i]] + back);
    assert(s.update(i, p) =~= front + seq![p] + back);
    lemma_qty_concat(front + seq![s[i]], back, k);
    lemma_qty_concat(front, seq![s[i]], k);
    lemma_qty_concat(front + seq![p], back, k);
    lemma_qty_concat(front, seq![p], k);
    lemma_qty_singleton(s[i], k);
    lemma_qty_singleton(p, k);
    lemma_total_concat(front + seq![s[i]], back);
    lemma_total_concat(front, seq![s[i]]);
    lemma_total_concat(front + seq![p], back);
    lemma_total_concat(front, seq![p]);
}

/// Relates the quantities of a table to those of the table with entry `i`
/// removed.
pub proof fn lemma_qty_remove(s: Seq<(Seq<char>, int)>, i: int, k: Seq<char>)
    requires
        0 <= i < s.len(),
    ensures
        qty_of(s.remove(i), k) == qty_of(s, k) - key_qty(s[i], k),
        total_of(s.remove(i)) == total_of(s) - s[i].1,
{
    let front = s.take(i);
    let back = s.skip(i + 1);
    assert(s =~= front + seq![s[i]] + back);
    assert(s.remove(i) =~= front + back);
    lemma_qty_concat(front + seq![s[i]], back, k);
    lemma_qty_concat(front, seq![s[i]], k);
    lemma_qty_concat(front, back, k);
    lemma_qty_singleton(s[i], k);
    lemma_total_concat(front + seq![s[i]], back);
    lemma_total_concat(front, seq![s[i]]);
    lemma_total_concat(front, back);
}

/// Relates the quantities of a table to those of the table with the pair `p`
/// appended.
pub proof fn lemma_qty_push(s: Seq<(Seq<char>, int)>, p: (Seq<char>, int), k: Seq<char>)
    ensures
        qty_of(s.push(p), k) == qty_of(s, k) + key_qty(p, k),
        total_of(s.push(p)) == total_of(s) + p.1,
{
    assert(s.push(p) =~= s + seq![p]);
    lemma_qty_concat(s, seq![p], k);
    lemma_total_concat(s, seq![p]);
    lemma_qty_singleton(p, k);
}

pub proof fn lemma_qty_singleton(p: (Seq<char>, int), k: Seq<char>)
    ensures
        qty_of(seq![p], k) == key_qty(p, k),
        total_of(seq![p]) == p.1,
{
    let s = seq![p];
    assert(s.len() == 1);
    assert(s[0] == p);
    assert(s.drop_first() =~= Seq::<(Seq<char>, int)>::empty());
    assert(qty_of(s.drop_first(), k) == 0);
    assert(total_of(s.drop_first()) == 0);
    assert(qty_of(s, k) == key_qty(p, k) + qty_of(s.drop_first(), k));
    assert(total_of(s) == p.1 + total_of(s.drop_first()));
}

/// Under unique keys, a per-entry bound is a per-key bound.
pub proof fn lemma_qty_bounded(s: Seq<(Seq<char>, int)>, k: Seq<char>, hi: int)
    requires
        distinct_keys(s),
        quantities_at_most(s, hi),
        hi >= 0,
    ensures
        qty_of(s, k) <= hi,
{
    if has_key(s, k) {
        let i = choose|i: int| 0 <= i < s.len() && s[i].0 == k;
        lemma_qty_at(s, k, i);
    } else {
        lemma_qty_absent(s, k);
    }
}

/// Under unique keys, a bound on every key's quantity bounds every entry.
pub proof fn lemma_at_most_from_qty(s: Seq<(Seq<char>, int)>, hi: int)
    requires
        distinct_keys(s),
        forall|k: Seq<char>| qty_of(s, k) <= hi,
    ensures
        quantities_at_most(s, hi),
{
    assert forall|i: int| 0 <= i < s.len() implies s[i].1 <= hi by {
        lemma_qty_at(s, s[i].0, i);
        assert(qty_of(s, s[i].0) <= hi);
    }
}

/// A prefix of a table never attributes more to a key, nor sums to more,
/// than the whole table does.
pub proof fn lemma_qty_take(s: Seq<(Seq<char>, int)>, i: int, k: Seq<char>)
    requires
        quantities_at_least(s, 0),
        0 <= i <= s.len(),
    ensures
        qty_of(s.take(i), k) <= qty_of(s, k),
        total_of(s.take(i)) <= total_of(s),
        qty_of(s.take(i), k) >= 0,
        total_of(s.take(i)) >= 0,
{
    let front = s.take(i);
    let back = s.skip(i);
    assert(s =~= front + back);
    lemma_qty_concat(front, back, k);
    lemma_total_concat(front, back);
    assert(quantities_at_least(back, 0)) by {
        assert(forall|j: int| 0 <= j < back.len() ==> back[j] == s[i + j]);
    }
    assert(quantities_at_least(front, 0));
    lemma_qty_nonneg(back, k);
    lemma_total_nonneg(back);
    lemma_qty_nonneg(front, k);
    lemma_total_nonneg(front);
}

/// Extending a processed prefix by one pair adds that pair's contribution.
pub proof fn lemma_qty_take_succ(s: Seq<(Seq<char>, int)>, i: int, k: Seq<char>)
    requires
        0 <= i < s.len(),
    ensures
        qty_of(s.take(i + 1), k) == qty_of(s.take(i), k) + key_qty(s[i], k),
        total_of(s.take(i + 1)) == total_of(s.take(i)) + s[i].1,
{
    assert(s.take(i + 1) =~= s.take(i).push(s[i]));
    lemma_qty_push(s.take(i), s[i], k);
}

/// A mapping from card identifiers to positive quantities, stored as a
/// vector of pairs with unique identifiers.
pub struct CardMap {
    entries: Vec<(String, i64)>,
}

impl View for CardMap {
    type V = Seq<(Seq<char>, int)>;

    closed spec fn view(&self) -> Seq<(Seq<char>, int)> {
        Seq::new(self.entries@.len(), |i: int| (self.entries@[i].0@, self.entries@[i].1 as int))
    }
}

impl CardMap {
    /// Identifiers are unique and every stored quantity is positive.
    pub open spec fn wf(&self) -> bool {
        table_wf(self@)
    }

    pub fn new() -> (r: CardMap)
        ensures
            r@ =~= Seq::<(Seq<char>, int)>::empty(),
            r.wf(),
    {
        CardMap { entries: Vec::new() }
    }

    pub fn len(&self) -> (r: usize)
        ensures
            r == self@.len(),
    {
        self.entries.len()
    }

    /// The stored pairs, for callers that need to walk the table.
    pub fn pairs(&self) -> (r: &Vec<(String, i64)>)
        ensures
            r@.len() == self@.len(),
            forall|i: int|
                0 <= i < self@.len() ==> r@[i].0@ == self@[i].0 && r@[i].1 as int == self@[i].1,
    {
        &self.entries
    }

    /// The identifiers recorded, in storage order, ready for a batched
    /// catalog lookup.
    pub fn ids(&self) -> (r: Vec<String>)
        ensures
            r@.len() == self@.len(),
            forall|i: int| 0 <= i < r@.len() ==> (#[trigger] r@[i])@ == self@[i].0,
    {
        let n = self.entries.len();
        let mut r: Vec<String> = Vec::new();
        let mut i: usize = 0;
        while i < n
            invariant
                n == self@.len(),
                i <= n,
                r@.len() == i,
                forall|j: int| 0 <= j < i ==> (#[trigger] r@[j])@ == self@[j].0,
            decreases n - i,
        {
            r.push(self.entries[i].0.clone());
            i = i + 1;
        }
        r
    }

    fn find(&self, id: &String) -> (r: Option<usize>)
        ensures
            match r {
                Some(i) => i < self@.len() && self@[i as int].0 == id@,
                None => !has_key(self@, id@),
            },
    {
        let n = self.entries.len();
        let mut i: usize = 0;
        while i < n
            invariant
                n == self@.len(),
                i <= n,
                forall|j: int| 0 <= j < i ==> self@[j].0 != id@,
            decreases n - i,
        {
            if self.entries[i].0 == *id {
                return Some(i);
            }
            i = i + 1;
        }
        None
    }

    /// The quantity recorded for `id`; absence counts as zero.
    pub fn get(&self, id: &String) -> (r: i64)
        requires
            self.wf(),
        ensures
            r == qty_of(self@, id@),
            r >= 0,
    {
        match self.find(id) {
            Some(i) => {
                proof {
                    lemma_qty_at(self@, id@, i as int);
                }
                self.entries[i].1
            },
            None => {
                proof {
                    lemma_qty_absent(self@, id@);
                }
                0
            },
        }
    }

    /// Sum of all recorded quantities.
    pub fn total(&self) -> (r: i64)
        requires
            self.wf(),
            total_of(self@) <= i64::MAX,
        ensures
            r == total_of(self@),
            r >= 0,
    {
        let n = self.entries.len();
        let mut sum: i64 = 0;
        let mut i: usize = 0;
        while i < n
            invariant
                self.wf(),
                total_of(self@) <= i64::MAX,
                n == self@.len(),
                i <= n,
                sum == total_of(self@.take(i as int)),
                sum >= 0,
            decreases n - i,
        {
            proof {
                lemma_qty_take_succ(self@, i as int, Seq::<char>::empty());
                lemma_qty_take(self@, i as int + 1, Seq::<char>::empty());
            }
            sum = sum + self.entries[i].1;
            i = i + 1;
        }
        proof {
            assert(self@.take(n as int) =~= self@);
        }
        sum
    }

    /// Raise the quantity recorded for `id` by `amt`, creating the entry if
    /// it is absent.
    pub fn add_qty(&mut self, id: &String, amt: i64)
        requires
            old(self).wf(),
            amt >= 1,
            qty_of(old(self)@, id@) + amt <= i64::MAX,
        ensures
            final(self).wf(),
            qty_of(final(self)@, id@) == qty_of(old(self)@, id@) + amt,
            forall|k: Seq<char>|
                k != id@ ==> qty_of(final(self)@, k) == qty_of(old(self)@, k),
            total_of(final(self)@) == total_of(old(self)@) + amt,
    {
        let ghost s0 = self@;
        match self.find(id) {
            Some(i) => {
                proof {
                    lemma_qty_at(s0, id@, i as int);
                }
                let q = self.entries[i].1;
                self.entries[i].1 = q + amt;
                proof {
                    assert(self@ =~= s0.update(i as int, (s0[i as int].0, q + amt)));
                    assert forall|k: Seq<char>| true implies qty_of(self@, k) == qty_of(s0, k)
                        - key_qty(s0[i as int], k) + key_qty((s0[i as int].0, (q + amt) as int), k) by {
                        lemma_qty_update(s0, i as int, (s0[i as int].0, (q + amt) as int), k);
                    }
                    lemma_qty_update(s0, i as int, (s0[i as int].0, (q + amt) as int), id@);
                    assert(distinct_keys(self@));
                }
            },
            None => {
                proof {
                    lemma_qty_absent(s0, id@);
                }
                self.entries.push((id.clone(), amt));
                proof {
                    assert(self@ =~= s0.push((id@, amt as int)));
                    assert forall|k: Seq<char>| true implies qty_of(self@, k) == qty_of(s0, k)
                        + key_qty((id@, amt as int), k) by {
                        lemma_qty_push(s0, (id@, amt as int), k);
                    }
                    lemma_qty_push(s0, (id@, amt as int), id@);
                    assert(distinct_keys(self@)) by {
                        assert(forall|j: int| 0 <= j < s0.len() ==> self@[j] == s0[j]);
                    }
                }
            },
        }
    }

    /// Lower the quantity recorded for `id` by `amt`, dropping the entry when
    /// it reaches zero.
    pub fn sub_qty(&mut self, id: &String, amt: i64)
        requires
            old(self).wf(),
            amt >= 1,
            qty_of(old(self)@, id@) >= amt,
        ensures
            final(self).wf(),
            qty_of(final(self)@, id@) == qty_of(old(self)@, id@) - amt,
            forall|k: Seq<char>|
                k != id@ ==> qty_of(final(self)@, k) == qty_of(old(self)@, k),
            total_of(final(self)@) == total_of(old(self)@) - amt,
    {
        let ghost s0 = self@;
        proof {
            if !has_key(s0, id@) {
                lemma_qty_absent(s0, id@);
            }
        }
        match self.find(id) {
            Some(i) => {
                proof {
                    lemma_qty_at(s0, id@, i as int);
                }
                let q = self.entries[i].1;
                if q == amt {
                    self.entries.remove(i);
                    proof {
                        assert(self@ =~= s0.remove(i as int));
                        assert forall|k: Seq<char>| true implies qty_of(self@, k) == qty_of(s0, k)
                            - key_qty(s0[i as int], k) by {
                            lemma_qty_remove(s0, i as int, k);
                        }
                        lemma_qty_remove(s0, i as int, id@);
                        assert(distinct_keys(self@)) by {
                            assert(forall|j: int|
                                0 <= j < self@.len() ==> self@[j] == (if j < i as int {
                                    s0[j]
                                } else {
                                    s0[j + 1]
                                }));
                        }
                        assert(quantities_at_least(self@, 1)) by {
                            assert(forall|j: int|
                                0 <= j < self@.len() ==> self@[j] == (if j < i as int {
                                    s0[j]
                                } else {
                                    s0[j + 1]
                                }));
                        }
                    }
                } else {
                    self.entries[i].1 = q - amt;
                    proof {
                        assert(self@ =~= s0.update(i as int, (s0[i as int].0, q - amt)));
                        assert forall|k: Seq<char>| true implies qty_of(self@, k) == qty_of(s0, k)
                            - key_qty(s0[i as int], k) + key_qty(
                            (s0[i as int].0, (q - amt) as int),
                            k,
                        ) by {
                            lemma_qty_update(s0, i as int, (s0[i as int].0, (q - amt) as int), k);
                        }
                        lemma_qty_update(s0, i as int, (s0[i as int].0, (q - amt) as int), id@);
                        assert(distinct_keys(self@));
                    }
                }
            },
            None => {
                proof {
                    assert(false);
                }
            },
        }
    }
}

} // verus!
