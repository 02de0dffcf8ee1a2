//! Reordering the record list ascending by date: an insertion sort with a
//! full functional specification, proved to keep exactly the same records
//! and to be idempotent.

use vstd::prelude::*;
use vstd::multiset::Multiset;
use crate::record::DbItem;
use crate::text::{lex_le, lemma_lex_le_total, lemma_lex_le_transitive};

verus! {

/// Record order: ascending by date string; the canonical `YYYY-MM-DD` form
/// makes lexicographic order agree with calendar order.
pub open spec fn date_le(a: DbItem, b: DbItem) -> bool {
    lex_le(a.date@, b.date@)
}

pub open spec fn sorted_by_date(s: Seq<DbItem>) -> bool {
    forall|i: int, j: int| 0 <= i < j < s.len() ==> date_le(#[trigger] s[i], #[trigger] s[j])
}

/// Inserts `x` in front of the first element it is not after, so an element
/// never moves past an equal date.
pub open spec fn insert_by_date(x: DbItem, s: Seq<DbItem>) -> Seq<DbItem>
    decreases s.len(),
{
    if s.len() == 0 {
        seq![x]
    } else if !date_le(x, s[0]) {
        seq![s[0]] + insert_by_date(x, s.drop_first())
    } else {
        seq![x] + s
    }
}

/// The record list ascending by date.
pub open spec fn sort_by_date(s: Seq<DbItem>) -> Seq<DbItem>
    decreases s.len(),
{
    if s.len() == 0 {
        Seq::empty()
    } else {
        insert_by_date(s[0], sort_by_date(s.drop_first()))
    }
}

proof fn lemma_seq_singleton_multiset(x: DbItem)
    ensures
        seq![x].to_multiset() =~= Multiset::empty().insert(x),
{
    broadcast use vstd::multiset::group_multiset_axioms;
    broadcast use vstd::multiset::lemma_multiset_empty_len;
    broadcast use vstd::seq_lib::group_to_multiset_ensures;

    assert(seq![x] =~= Seq::<DbItem>::empty().push(x));
    assert(Seq::<DbItem>::empty().to_multiset().len() == 0);
    assert(Seq::<DbItem>::empty().to_multiset() =~= Multiset::<DbItem>::empty());
}

proof fn lemma_insert_multiset(x: DbItem, s: Seq<DbItem>)
    ensures
        insert_by_date(x, s).to_multiset() =~= s.to_multiset().insert(x),
        insert_by_date(x, s).len() == s.len() + 1,
    decreases s.len(),
{
    broadcast use vstd::multiset::group_multiset_axioms;
    broadcast use vstd::seq_lib::group_to_multiset_ensures;
    broadcast use vstd::seq_lib::lemma_multiset_commutative;

    if s.len() == 0 {
        lemma_seq_singleton_multiset(x);
        assert(seq![x] =~= Seq::<DbItem>::empty().push(x));
    } else if !date_le(x, s[0]) {
        let t = s.drop_first();
        lemma_insert_multiset(x, t);
        lemma_seq_singleton_multiset(s[0]);
        assert((seq![s[0]] + insert_by_date(x, t)).to_multiset() =~= seq![s[0]].to_multiset().add(
            insert_by_date(x, t).to_multiset(),
        ));
        assert(s =~= seq![s[0]] + t);
        assert(s.to_multiset() =~= seq![s[0]].to_multiset().add(t.to_multiset()));
    } else {
        lemma_seq_singleton_multiset(x);
        assert((seq![x] + s).to_multiset() =~= seq![x].to_multiset().add(s.to_multiset()));
    }
}

proof fn lemma_insert_elems(x: DbItem, s: Seq<DbItem>, i: int)
    requires
        0 <= i < insert_by_date(x, s).len(),
    ensures
        insert_by_date(x, s)[i] == x || s.contains(insert_by_date(x, s)[i]),
    decreases s.len(),
{
    if s.len() == 0 {
    } else if !date_le(x, s[0]) {
        if i > 0 {
            lemma_insert_elems(x, s.drop_first(), i - 1);
        }
    }
}

proof fn lemma_insert_sorted(x: DbItem, s: Seq<DbItem>)
    requires
        sorted_by_date(s),
    ensures
        sorted_by_date(insert_by_date(x, s)),
    decreases s.len(),
{
    if s.len() == 0 {
    } else if !date_le(x, s[0]) {
        let t = s.drop_first();
        assert(sorted_by_date(t));
        lemma_insert_sorted(x, t);
        lemma_lex_le_total(x.date@, s[0].date@);
        let r = seq![s[0]] + insert_by_date(x, t);
        lemma_insert_multiset(x, t);
        assert forall|i: int, j: int| 0 <= i < j < r.len() implies date_le(r[i], r[j]) by {
            if i == 0 {
                lemma_insert_elems(x, t, j - 1);
                let y = insert_by_date(x, t)[j - 1];
                assert(r[j] == y);
                if y == x {
                    assert(date_le(s[0], x));
                } else {
                    let k = choose|k: int| 0 <= k < t.len() && t[k] == y;
                    assert(date_le(s[0], s[k + 1]));
                }
            } else {
                assert(r[i] == insert_by_date(x, t)[i - 1]);
                assert(r[j] == insert_by_date(x, t)[j - 1]);
            }
        }
    } else {
        let r = seq![x] + s;
        assert forall|i: int, j: int| 0 <= i < j < r.len() implies date_le(r[i], r[j]) by {
            if i == 0 {
                if j == 1 {
                    assert(date_le(x, s[0]));
                } else {
                    assert(date_le(s[0], s[j - 1]));
                    lemma_lex_le_transitive(x.date@, s[0].date@, s[j - 1].date@);
                }
            }
        }
    }
}

/// Sorting yields exactly the same records (as a multiset, so with
/// duplicates kept), in ascending date order.
pub proof fn lemma_sort_by_date_ensures(s: Seq<DbItem>)
    ensures
        sort_by_date(s).to_multiset() =~= s.to_multiset(),
        sort_by_date(s).len() == s.len(),
        sorted_by_date(sort_by_date(s)),
    decreases s.len(),
{
    broadcast use vstd::multiset::group_multiset_axioms;
    broadcast use vstd::seq_lib::group_to_multiset_ensures;
    broadcast use vstd::seq_lib::lemma_multiset_commutative;

    if s.len() > 0 {
        let t = s.drop_first();
        lemma_sort_by_date_ensures(t);
        lemma_insert_multiset(s[0], sort_by_date(t));
        lemma_insert_sorted(s[0], sort_by_date(t));
        lemma_seq_singleton_multiset(s[0]);
        assert(s =~= seq![s[0]] + t);
        assert(s.to_multiset() =~= seq![s[0]].to_multiset().add(t.to_multiset()));
    }
}

/// Sorting an already date-sorted list leaves it exactly as it is; in
/// particular a second consecutive sort changes nothing.
pub proof fn lemma_sort_by_date_idempotent(s: Seq<DbItem>)
    requires
        sorted_by_date(s),
    ensures
        sort_by_date(s) == s,
    decreases s.len(),
{
    if s.len() > 0 {
        let t = s.drop_first();
        assert(sorted_by_date(t));
        lemma_sort_by_date_idempotent(t);
        if t.len() == 0 {
            assert(sort_by_date(s) =~= seq![s[0]]);
            assert(s =~= seq![s[0]]);
        } else {
            assert(date_le(s[0], s[1]));
            assert(t[0] == s[1]);
            assert(insert_by_date(s[0], t) =~= seq![s[0]] + t);
            assert(seq![s[0]] + t =~= s);
        }
    }
}

/// Where `x` belongs in date order: past every record its date is after.
proof fn lemma_insert_at(x: DbItem, s: Seq<DbItem>, j: int)
    requires
        0 <= j <= s.len(),
        forall|k: int| 0 <= k < j ==> !date_le(x, #[trigger] s[k]),
        j < s.len() ==> date_le(x, s[j]),
    ensures
        insert_by_date(x, s) == s.take(j).push(x) + s.skip(j),
    decreases j,
{
    if j == 0 {
        if s.len() == 0 {
            assert(insert_by_date(x, s) =~= s.take(0).push(x) + s.skip(0));
        } else {
            assert(seq![x] + s =~= s.take(0).push(x) + s.skip(0));
        }
    } else {
        assert(!date_le(x, s[0]));
        let t = s.drop_first();
        assert(forall|k: int| 0 <= k < j - 1 ==> t[k] == s[k + 1]);
        lemma_insert_at(x, t, j - 1);
        assert(seq![s[0]] + (t.take(j - 1).push(x) + t.skip(j - 1)) =~= s.take(j).push(x) + s.skip(
            j,
        ));
    }
}

/// Inserts one record into a date-sorted vector, keeping it sorted.
fn insert_record(x: DbItem, v: &mut Vec<DbItem>)
    ensures
        final(v)@ == insert_by_date(x, old(v)@),
{
    let ghost s = v@;
    let mut j: usize = 0;
    while j < v.len() && !crate::text::str_le(x.date.as_str(), v[j].date.as_str())
        invariant
            0 <= j <= v.len(),
            v@ == s,
            forall|k: int| 0 <= k < j ==> !date_le(x, #[trigger] s[k]),
        decreases v.len() - j,
    {
        j = j + 1;
    }
    proof {
        lemma_insert_at(x, s, j as int);
    }
    v.insert(j, x);
    assert(v@ =~= s.take(j as int).push(x) + s.skip(j as int));
}

/// Returns the records of `v` in ascending date order; see
/// [`lemma_sort_by_date_ensures`] and [`lemma_sort_by_date_idempotent`]
/// for what that preserves.
pub fn sort_records(v: Vec<DbItem>) -> (r: Vec<DbItem>)
    ensures
        r@ == sort_by_date(v@),
{
    let ghost s = v@;
    let mut v = v;
    let mut out: Vec<DbItem> = Vec::new();
    proof {
        assert(s.skip(s.len() as int) =~= Seq::<DbItem>::empty());
    }
    while v.len() > 0
        invariant
            v@.len() <= s.len(),
            v@ == s.take(v@.len() as int),
            out@ == sort_by_date(s.skip(v@.len() as int)),
        decreases v.len(),
    {
        let ghost n = v@.len() as int;
        let x = match v.pop() {
            Some(x) => x,
            None => {
                proof {
                    assert(false);
                }
                continue ;
            },
        };
        assert(x == s.take(n)[n - 1]);
        assert(x == s[n - 1]);
        insert_record(x, &mut out);
        proof {
            let rest = s.skip(n - 1);
            assert(rest[0] == s[n - 1]);
            assert(rest.drop_first() =~= s.skip(n));
            assert(v@ =~= s.take(n - 1));
        }
    }
    proof {
        assert(s.take(0) =~= Seq::<DbItem>::empty());
        assert(s.skip(0) =~= s);
    }
    out
}

} // verus!
