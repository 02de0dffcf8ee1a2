//! The record store: an ordered table of purchase records with unique,
//! never-reused ids, distinct-value queries for autocomplete, and an atomic
//! date-ordered resort.

use vstd::prelude::*;
use crate::record::DbItem;
use crate::sort::{sort_by_date, sort_records, sorted_by_date, lemma_sort_by_date_ensures};
use crate::text::{
    lex_lt, lex_le, str_eq, str_le, lemma_lex_le_total, lemma_lex_le_antisymmetric,
    lemma_lex_le_transitive,
};

verus! {

/// Why a store operation failed: the id was not present, or the id space is
/// exhausted and nothing more can be inserted.
#[derive(Clone, Copy, Debug, PartialEq, Eq, Structural)]
pub enum StoreError {
    NotFound,
    Full,
}

pub open spec fn contains_id(s: Seq<DbItem>, id: i64) -> bool {
    exists|i: int| 0 <= i < s.len() && (#[trigger] s[i]).id == id
}

/// The index holding `id`; meaningful only when `contains_id` holds and ids
/// are unique.
pub open spec fn idx_of_id(s: Seq<DbItem>, id: i64) -> int {
    choose|i: int| 0 <= i < s.len() && (#[trigger] s[i]).id == id
}

pub open spec fn unique_ids(s: Seq<DbItem>) -> bool {
    forall|i: int, j: int|
        0 <= i < j < s.len() ==> (#[trigger] s[i]).id != (#[trigger] s[j]).id
}

pub open spec fn all_wf(s: Seq<DbItem>) -> bool {
    forall|i: int| 0 <= i < s.len() ==> (#[trigger] s[i]).wf()
}

/// The record stored when `item`'s fields are persisted under `id`.
pub open spec fn with_id(item: DbItem, id: i64) -> DbItem {
    DbItem { id, ..item }
}

proof fn lemma_permutation_contains_id(a: Seq<DbItem>, b: Seq<DbItem>, id: i64)
    requires
        a.to_multiset() == b.to_multiset(),
        contains_id(b, id),
    ensures
        contains_id(a, id),
{
    broadcast use vstd::multiset::group_multiset_axioms;
    broadcast use vstd::seq_lib::group_to_multiset_ensures;

    let j = choose|j: int| 0 <= j < b.len() && (#[trigger] b[j]).id == id;
    assert(b.contains(b[j]));
    assert(b.to_multiset().count(b[j]) > 0);
    assert(a.to_multiset().count(b[j]) > 0);
    assert(a.contains(b[j]));
    let i = choose|i: int| 0 <= i < a.len() && a[i] == b[j];
    assert(a[i].id == id);
}

proof fn lemma_permutation_all_wf(a: Seq<DbItem>, b: Seq<DbItem>)
    requires
        a.to_multiset() == b.to_multiset(),
        all_wf(b),
    ensures
        all_wf(a),
{
    broadcast use vstd::multiset::group_multiset_axioms;
    broadcast use vstd::seq_lib::group_to_multiset_ensures;

    assert forall|i: int| 0 <= i < a.len() implies (#[trigger] a[i]).wf() by {
        assert(a.contains(a[i]));
        assert(a.to_multiset().count(a[i]) > 0);
        assert(b.to_multiset().count(a[i]) > 0);
        assert(b.contains(a[i]));
        let j = choose|j: int| 0 <= j < b.len() && b[j] == a[i];
        assert(b[j].wf());
    }
}

proof fn lemma_permutation_ids_below(a: Seq<DbItem>, b: Seq<DbItem>, bound: i64)
    requires
        a.to_multiset() == b.to_multiset(),
        forall|i: int| 0 <= i < b.len() ==> (#[trigger] b[i]).id < bound,
    ensures
        forall|i: int| 0 <= i < a.len() ==> (#[trigger] a[i]).id < bound,
{
    broadcast use vstd::multiset::group_multiset_axioms;
    broadcast use vstd::seq_lib::group_to_multiset_ensures;

    assert forall|i: int| 0 <= i < a.len() implies (#[trigger] a[i]).id < bound by {
        assert(a.contains(a[i]));
        assert(a.to_multiset().count(a[i]) > 0);
        assert(b.to_multiset().count(a[i]) > 0);
        assert(b.contains(a[i]));
        let j = choose|j: int| 0 <= j < b.len() && b[j] == a[i];
        assert(b[j].id < bound);
    }
}

proof fn lemma_permutation_unique_ids(a: Seq<DbItem>, b: Seq<DbItem>)
    requires
        a.to_multiset() == b.to_multiset(),
        unique_ids(b),
    ensures
        unique_ids(a),
{
    broadcast use vstd::multiset::group_multiset_axioms;
    broadcast use vstd::seq_lib::group_to_multiset_ensures;

    assert(b.no_duplicates()) by {
        assert forall|i: int, j: int|
            0 <= i < b.len() && 0 <= j < b.len() && i != j implies b[i] != b[j] by {
            if i < j {
                assert(b[i].id != b[j].id);
            } else {
                assert(b[j].id != b[i].id);
            }
        }
    }
    b.lemma_multiset_has_no_duplicates();
    assert(forall|x: DbItem| a.to_multiset().contains(x) ==> a.to_multiset().count(x) == 1);
    a.lemma_multiset_has_no_duplicates_conv();
    assert forall|i: int, j: int|
        0 <= i < j < a.len() implies (#[trigger] a[i]).id != (#[trigger] a[j]).id by {
        if a[i].id == a[j].id {
            assert(a[i] != a[j]);
            assert(a.contains(a[i]));
            assert(a.to_multiset().count(a[i]) > 0);
            assert(b.to_multiset().count(a[i]) > 0);
            assert(b.contains(a[i]));
            assert(a.contains(a[j]));
            assert(a.to_multiset().count(a[j]) > 0);
            assert(b.to_multiset().count(a[j]) > 0);
            assert(b.contains(a[j]));
            let k = choose|k: int| 0 <= k < b.len() && b[k] == a[i];
            let l = choose|l: int| 0 <= l < b.len() && b[l] == a[j];
            assert(k != l);
            if k < l {
                assert(b[k].id != b[l].id);
            } else {
                assert(b[l].id != b[k].id);
            }
        }
    }
}

/// Distinct values in strictly increasing lexicographic order.
pub open spec fn strictly_sorted(s: Seq<Seq<char>>) -> bool {
    forall|i: int, j: int| 0 <= i < j < s.len() ==> lex_lt(#[trigger] s[i], #[trigger] s[j])
}

/// The text the autocomplete draws on: a record's category or description.
pub open spec fn field_view(item: DbItem, category: bool) -> Seq<char> {
    if category {
        item.category@
    } else {
        item.description@
    }
}

/// Inserts `x` into a strictly sorted list of distinct values, keeping it
/// strictly sorted; a value already present is not duplicated.
fn insert_distinct(x: String, v: &mut Vec<String>)
    requires
        strictly_sorted(old(v).deep_view()),
    ensures
        strictly_sorted(final(v).deep_view()),
        forall|y: Seq<char>| final(v).deep_view().contains(y) <==> y == x@
            || old(v).deep_view().contains(y),
{
    let ghost dv = old(v).deep_view();
    let ghost vs = old(v)@;
    let mut j: usize = 0;
    assert(forall|k: int| 0 <= k < dv.len() ==> dv[k] == (#[trigger] vs[k])@);
    while j < v.len() && !str_le(x.as_str(), v[j].as_str())
        invariant
            0 <= j <= vs.len(),
            v@ == vs,
            dv == v.deep_view(),
            dv.len() == vs.len(),
            forall|k: int| 0 <= k < dv.len() ==> dv[k] == (#[trigger] vs[k])@,
            forall|k: int| 0 <= k < j ==> lex_lt(#[trigger] dv[k], x@),
        decreases vs.len() - j,
    {
        proof {
            lemma_lex_le_total(x@, vs[j as int]@);
            lemma_lex_le_total(x@, x@);
            assert(lex_le(vs[j as int]@, x@) && vs[j as int]@ != x@);
        }
        j = j + 1;
    }
    if j < v.len() {
        if str_eq(x.as_str(), v[j].as_str()) {
            proof {
                assert(dv[j as int] == x@);
                assert(dv.contains(dv[j as int]));
            }
            return ;
        }
    }
    proof {
        if (j as int) < vs.len() {
            assert(lex_le(x@, dv[j as int]) && x@ != dv[j as int]);
        }
    }
    v.insert(j, x);
    proof {
        let dvn = v.deep_view();
        assert(v@ =~= vs.insert(j as int, x));
        assert(dvn =~= dv.insert(j as int, x@)) by {
            dv.insert_ensures(j as int, x@);
            assert(forall|i: int| 0 <= i < dvn.len() ==> dvn[i] == (#[trigger] v@[i])@);
        }
        dv.insert_ensures(j as int, x@);
        assert(forall|i: int| 0 <= i < j ==> #[trigger] dvn[i] == dv[i]);
        assert(dvn[j as int] == x@);
        assert(forall|i: int| j < i < dvn.len() ==> #[trigger] dvn[i] == dv[i - 1]);
        assert forall|p: int, q: int|
            0 <= p < q < dvn.len() implies lex_lt(#[trigger] dvn[p], #[trigger] dvn[q]) by {
            if q < j {
                assert(lex_lt(dv[p], dv[q]));
            } else if q == j {
                assert(lex_lt(dv[p], x@));
            } else if p == j {
                if q == j + 1 {
                    assert(lex_lt(x@, dv[j as int]));
                } else {
                    assert(lex_lt(dv[j as int], dv[q - 1]));
                    lemma_lex_le_transitive(x@, dv[j as int], dv[q - 1]);
                    if x@ == dv[q - 1] {
                        lemma_lex_le_antisymmetric(dv[j as int], dv[q - 1]);
                    }
                }
            } else if p < j {
                assert(lex_lt(dv[p], dv[q - 1]));
            } else {
                assert(lex_lt(dv[p - 1], dv[q - 1]));
            }
        }
        assert forall|y: Seq<char>| dvn.contains(y) <==> y == x@ || dv.contains(y) by {
            if dvn.contains(y) {
                let i = choose|i: int| 0 <= i < dvn.len() && dvn[i] == y;
                if i < j {
                    assert(dv[i] == y);
                } else if i > j {
                    assert(dv[i - 1] == y);
                }
            }
            if y == x@ {
                assert(dvn[j as int] == y);
            }
            if dv.contains(y) {
                let i = choose|i: int| 0 <= i < dv.len() && dv[i] == y;
                if i < j {
                    assert(dvn[i] == y);
                } else {
                    assert(dvn[i + 1] == y);
                }
            }
        }
    }
}

/// The distinct values of one field over all records, in ascending
/// lexicographic order.
fn distinct_field(items: &Vec<DbItem>, category: bool) -> (r: Vec<String>)
    ensures
        strictly_sorted(r.deep_view()),
        forall|y: Seq<char>| r.deep_view().contains(y) <==> exists|k: int|
            0 <= k < items@.len() && field_view(#[trigger] items@[k], category) == y,
{
    let mut out: Vec<String> = Vec::new();
    let mut i: usize = 0;
    while i < items.len()
        invariant
            0 <= i <= items@.len(),
            strictly_sorted(out.deep_view()),
            forall|y: Seq<char>| out.deep_view().contains(y) <==> exists|k: int|
                0 <= k < i && field_view(#[trigger] items@[k], category) == y,
        decreases items@.len() - i,
    {
        let ghost prev = out.deep_view();
        let x = if category {
            items[i].category.clone()
        } else {
            items[i].description.clone()
        };
        assert(x@ == field_view(items@[i as int], category));
        insert_distinct(x, &mut out);
        proof {
            assert forall|y: Seq<char>|
                out.deep_view().contains(y) <==> exists|k: int|
                    0 <= k < i + 1 && field_view(#[trigger] items@[k], category) == y by {
                if out.deep_view().contains(y) {
                    if y == x@ {
                        assert(field_view(items@[i as int], category) == y);
                    } else {
                        assert(prev.contains(y));
                    }
                }
                if exists|k: int| 0 <= k < i + 1 && field_view(#[trigger] items@[k], category)
                    == y {
                    let k = choose|k: int|
                        0 <= k < i + 1 && field_view(#[trigger] items@[k], category) == y;
                    if k < i {
                        assert(prev.contains(y));
                    } else {
                        assert(y == x@);
                    }
                }
            }
        }
        i = i + 1;
    }
    out
}

/// The in-memory record table. Ids are assigned by an increasing counter
/// and never reused; every stored record is well formed.
pub struct Store {
    pub records: Vec<DbItem>,
    pub next_id: i64,
}

impl Store {
    pub open spec fn recs(self) -> Seq<DbItem> {
        self.records@
    }

    pub open spec fn wf(self) -> bool {
        &&& all_wf(self.recs())
        &&& unique_ids(self.recs())
        &&& forall|i: int| 0 <= i < self.recs().len() ==> (#[trigger] self.recs()[i]).id < self.next_id
        &&& 1 <= self.next_id
    }

    /// A fresh, empty store.
    pub fn new() -> (s: Store)
        ensures
            s.wf(),
            s.recs().len() == 0,
            s.next_id == 1,
    {
        Store { records: Vec::new(), next_id: 1 }
    }

    /// The position of the record with this id, if present.
    pub fn find_index_by_id(&self, id: i64) -> (r: Option<usize>)
        ensures
            match r {
                Some(j) => j < self.recs().len() && self.recs()[j as int].id == id,
                None => !contains_id(self.recs(), id),
            },
    {
        let mut j: usize = 0;
        while j < self.records.len()
            invariant
                0 <= j <= self.recs().len(),
                forall|k: int| 0 <= k < j ==> (#[trigger] self.recs()[k]).id != id,
            decreases self.recs().len() - j,
        {
            if self.records[j].id == id {
                return Some(j);
            }
            j = j + 1;
        }
        None
    }

    /// Persists `item`'s fields under a fresh id, at the end of the table.
    /// The new id is strictly greater than every id ever handed out, so ids
    /// are never reused; fails only when the id space is exhausted.
    pub fn insert_item(&mut self, item: &DbItem) -> (r: Result<i64, StoreError>)
        requires
            old(self).wf(),
            item.wf(),
        ensures
            final(self).wf(),
            match r {
                Ok(id) => {
                    &&& id == old(self).next_id
                    &&& !contains_id(old(self).recs(), id)
                    &&& final(self).recs() == old(self).recs().push(with_id(*item, id))
                    &&& final(self).next_id == old(self).next_id + 1
                },
                Err(e) => {
                    &&& e == StoreError::Full
                    &&& old(self).next_id == i64::MAX
                    &&& *final(self) == *old(self)
                },
            },
    {
        if self.next_id == i64::MAX {
            return Err(StoreError::Full);
        }
        let id = self.next_id;
        let stored = DbItem {
            id,
            date: item.date.clone(),
            category: item.category.clone(),
            description: item.description.clone(),
            price: item.price,
        };
        assert(stored == with_id(*item, id));
        self.next_id = self.next_id + 1;
        self.records.push(stored);
        proof {
            let s = old(self).recs();
            let t = self.recs();
            assert(t =~= s.push(with_id(*item, id)));
            assert forall|i: int, j: int|
                0 <= i < j < t.len() implies (#[trigger] t[i]).id != (#[trigger] t[j]).id by {
                if j == t.len() - 1 {
                    assert(t[i] == s[i]);
                    assert(s[i].id < id);
                }
            }
        }
        Ok(id)
    }

    /// Overwrites the fields of the record with this id; fails with
    /// `NotFound` exactly when no record has it.
    pub fn update_item(&mut self, id: i64, item: &DbItem) -> (r: Result<(), StoreError>)
        requires
            old(self).wf(),
            item.wf(),
        ensures
            final(self).wf(),
            final(self).next_id == old(self).next_id,
            r.is_ok() == contains_id(old(self).recs(), id),
            r.is_ok() ==> final(self).recs() == old(self).recs().update(
                idx_of_id(old(self).recs(), id),
                with_id(*item, id),
            ),
            !r.is_ok() ==> r == Result::<(), StoreError>::Err(StoreError::NotFound) && *final(self)
                == *old(self),
    {
        let j = match self.find_index_by_id(id) {
            Some(j) => j,
            None => {
                return Err(StoreError::NotFound);
            },
        };
        let stored = DbItem {
            id,
            date: item.date.clone(),
            category: item.category.clone(),
            description: item.description.clone(),
            price: item.price,
        };
        assert(stored == with_id(*item, id));
        let ghost s = self.recs();
        self.records.remove(j);
        self.records.insert(j, stored);
        proof {
            assert(idx_of_id(s, id) == j as int) by {
                assert(contains_id(s, id));
                let i = idx_of_id(s, id);
                assert(0 <= i < s.len() && s[i].id == id);
                if i < j as int {
                    assert(s[i].id != s[j as int].id);
                } else if i > j as int {
                    assert(s[j as int].id != s[i].id);
                }
            }
            let t = self.recs();
            assert(t =~= s.update(j as int, with_id(*item, id)));
            assert forall|p: int, q: int|
                0 <= p < q < t.len() implies (#[trigger] t[p]).id != (#[trigger] t[q]).id by {
                assert(s[p].id != s[q].id);
            }
        }
        Ok(())
    }

    /// Removes the record with this id; fails with `NotFound` exactly when
    /// no record has it.
    pub fn delete_item(&mut self, id: i64) -> (r: Result<(), StoreError>)
        requires
            old(self).wf(),
        ensures
            final(self).wf(),
            final(self).next_id == old(self).next_id,
            r.is_ok() == contains_id(old(self).recs(), id),
            r.is_ok() ==> final(self).recs() == old(self).recs().remove(
                idx_of_id(old(self).recs(), id),
            ),
            r.is_ok() ==> final(self).recs().len() == old(self).recs().len() - 1,
            !r.is_ok() ==> r == Result::<(), StoreError>::Err(StoreError::NotFound) && *final(self)
                == *old(self),
    {
        let j = match self.find_index_by_id(id) {
            Some(j) => j,
            None => {
                return Err(StoreError::NotFound);
            },
        };
        let ghost s = self.recs();
        self.records.remove(j);
        proof {
            assert(idx_of_id(s, id) == j as int) by {
                assert(contains_id(s, id));
                let i = idx_of_id(s, id);
                assert(0 <= i < s.len() && s[i].id == id);
                if i < j as int {
                    assert(s[i].id != s[j as int].id);
                } else if i > j as int {
                    assert(s[j as int].id != s[i].id);
                }
            }
            let t = self.recs();
            assert forall|p: int, q: int|
                0 <= p < q < t.len() implies (#[trigger] t[p]).id != (#[trigger] t[q]).id by {
                let p0 = if p < j as int {
                    p
                } else {
                    p + 1
                };
                let q0 = if q < j as int {
                    q
                } else {
                    q + 1
                };
                assert(t[p] == s[p0] && t[q] == s[q0]);
                assert(s[p0].id != s[q0].id);
            }
        }
        Ok(())
    }

    /// A copy of the full record list, in stored order.
    pub fn select_items(&self) -> (r: Vec<DbItem>)
        ensures
            r@ == self.recs(),
    {
        let mut r: Vec<DbItem> = Vec::new();
        let mut i: usize = 0;
        while i < self.records.len()
            invariant
                0 <= i <= self.recs().len(),
                r@ =~= self.recs().take(i as int),
            decreases self.recs().len() - i,
        {
            r.push(self.records[i].clone());
            assert(r@ =~= self.recs().take(i as int + 1));
            i = i + 1;
        }
        assert(r@ =~= self.recs());
        r
    }

    /// Rewrites the table in ascending date order. The records themselves
    /// are exactly preserved (see [`lemma_sort_by_date_ensures`]); a repeat
    /// call changes nothing (see
    /// [`crate::sort::lemma_sort_by_date_idempotent`]).
    pub fn sort_items(&mut self)
        requires
            old(self).wf(),
        ensures
            final(self).wf(),
            final(self).next_id == old(self).next_id,
            final(self).recs() == sort_by_date(old(self).recs()),
            sorted_by_date(final(self).recs()),
    {
        let copy = self.select_items();
        let sorted = sort_records(copy);
        proof {
            let s = self.recs();
            lemma_sort_by_date_ensures(s);
            lemma_permutation_all_wf(sort_by_date(s), s);
            lemma_permutation_unique_ids(sort_by_date(s), s);
            lemma_permutation_ids_below(sort_by_date(s), s, self.next_id);
        }
        self.records = sorted;
    }

    /// The category of the first record, in stored order, whose description
    /// matches exactly; the earliest record is the documented tie-break when
    /// several categories exist for one description.
    pub fn select_category(&self, description: &str) -> (r: Option<String>)
        ensures
            r.is_some() == exists|i: int|
                0 <= i < self.recs().len() && (#[trigger] self.recs()[i]).description@
                    == description@,
            r matches Some(c) ==> exists|i: int|
                {
                    &&& 0 <= i < self.recs().len()
                    &&& (#[trigger] self.recs()[i]).description@ == description@
                    &&& c@ == self.recs()[i].category@
                    &&& forall|k: int|
                        0 <= k < i ==> (#[trigger] self.recs()[k]).description@ != description@
                },
    {
        let mut j: usize = 0;
        while j < self.records.len()
            invariant
                0 <= j <= self.recs().len(),
                forall|k: int| 0 <= k < j ==> (#[trigger] self.recs()[k]).description@ != description@,
            decreases self.recs().len() - j,
        {
            if str_eq(self.records[j].description.as_str(), description) {
                return Some(self.records[j].category.clone());
            }
            j = j + 1;
        }
        None
    }

    /// The distinct categories over all records, lexicographically sorted.
    pub fn select_categories(&self) -> (r: Vec<String>)
        ensures
            strictly_sorted(r.deep_view()),
            forall|y: Seq<char>| r.deep_view().contains(y) <==> exists|k: int|
                0 <= k < self.recs().len() && (#[trigger] self.recs()[k]).category@ == y,
    {
        let r = distinct_field(&self.records, true);
        proof {
            assert forall|y: Seq<char>|
                r.deep_view().contains(y) <==> exists|k: int|
                    0 <= k < self.recs().len() && (#[trigger] self.recs()[k]).category@ == y by {
                assert(forall|k: int|
                    0 <= k < self.recs().len() ==> field_view(#[trigger] self.recs()[k], true)
                        == self.recs()[k].category@);
            }
        }
        r
    }

    /// The distinct descriptions over all records, lexicographically sorted.
    pub fn select_descriptions(&self) -> (r: Vec<String>)
        ensures
            strictly_sorted(r.deep_view()),
            forall|y: Seq<char>| r.deep_view().contains(y) <==> exists|k: int|
                0 <= k < self.recs().len() && (#[trigger] self.recs()[k]).description@ == y,
    {
        let r = distinct_field(&self.records, false);
        proof {
            assert forall|y: Seq<char>|
                r.deep_view().contains(y) <==> exists|k: int|
                    0 <= k < self.recs().len() && (#[trigger] self.recs()[k]).description@ == y by {
                assert(forall|k: int|
                    0 <= k < self.recs().len() ==> field_view(#[trigger] self.recs()[k], false)
                        == self.recs()[k].description@);
            }
        }
        r
    }
}

} // verus!
