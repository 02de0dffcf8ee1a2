//! The autocomplete candidate list: the distinct prior values that start
//! with the trimmed text currently in the buffer.

use vstd::prelude::*;
use crate::text::starts_with;

verus! {

/// The members of `list` that start with `p`, in `list`'s order.
pub open spec fn filtered(list: Seq<Seq<char>>, p: Seq<char>) -> Seq<Seq<char>> {
    list.filter(|y: Seq<char>| p.is_prefix_of(y))
}

proof fn lemma_filtered_empty(p: Seq<char>)
    ensures
        filtered(Seq::<Seq<char>>::empty(), p) == Seq::<Seq<char>>::empty(),
{
    reveal(Seq::filter);
}

proof fn lemma_filtered_push(list: Seq<Seq<char>>, p: Seq<char>)
    requires
        list.len() > 0,
    ensures
        filtered(list, p) == if p.is_prefix_of(list.last()) {
            filtered(list.drop_last(), p).push(list.last())
        } else {
            filtered(list.drop_last(), p)
        },
{
    reveal(Seq::filter);
}

/// Every candidate starts with the filter text and is drawn from the full
/// list; conversely every listed value with that prefix is a candidate.
pub proof fn lemma_filtered_props(list: Seq<Seq<char>>, p: Seq<char>)
    ensures
        forall|i: int|
            0 <= i < filtered(list, p).len() ==> p.is_prefix_of(#[trigger] filtered(list, p)[i])
                && list.contains(filtered(list, p)[i]),
        forall|y: Seq<char>| list.contains(y) && p.is_prefix_of(y) ==> filtered(list, p).contains(
            y,
        ),
    decreases list.len(),
{
    if list.len() == 0 {
        lemma_filtered_empty(p);
    } else {
        let sub = list.drop_last();
        lemma_filtered_props(sub, p);
        lemma_filtered_push(list, p);
        let out = filtered(list, p);
        assert forall|i: int|
            0 <= i < out.len() implies p.is_prefix_of(#[trigger] out[i]) && list.contains(
            out[i],
        ) by {
            if i < filtered(sub, p).len() {
                assert(out[i] == filtered(sub, p)[i]);
                assert(sub.contains(out[i]));
                let k = choose|k: int| 0 <= k < sub.len() && sub[k] == out[i];
                assert(list[k] == out[i]);
            } else {
                assert(p.is_prefix_of(list.last()));
                assert(out[i] == list.last());
                assert(list[list.len() - 1] == list.last());
            }
        }
        assert forall|y: Seq<char>|
            list.contains(y) && p.is_prefix_of(y) implies out.contains(y) by {
            let k = choose|k: int| 0 <= k < list.len() && list[k] == y;
            if k < list.len() - 1 {
                assert(sub[k] == y);
                assert(sub.contains(y));
                assert(filtered(sub, p).contains(y));
                let j = choose|j: int| 0 <= j < filtered(sub, p).len() && filtered(sub, p)[j] == y;
                assert(out[j] == y);
            } else {
                assert(y == list.last());
                assert(out[out.len() - 1] == y);
            }
        }
    }
}

/// The values of `list` that start with the trimmed text, in order.
pub fn filter_prefix(list: &Vec<String>, text: &str) -> (r: Vec<String>)
    ensures
        r.deep_view() == filtered(list.deep_view(), text@),
{
    let ghost dl = list.deep_view();
    let mut h: Vec<String> = Vec::new();
    let mut i: usize = 0;
    proof {
        lemma_filtered_empty(text@);
        assert(dl.take(0) =~= Seq::<Seq<char>>::empty());
        assert(forall|k: int| 0 <= k < dl.len() ==> dl[k] == (#[trigger] list@[k])@);
    }
    while i < list.len()
        invariant
            0 <= i <= list@.len(),
            dl == list.deep_view(),
            dl.len() == list@.len(),
            forall|k: int| 0 <= k < dl.len() ==> dl[k] == (#[trigger] list@[k])@,
            h.deep_view() == filtered(dl.take(i as int), text@),
        decreases list@.len() - i,
    {
        proof {
            lemma_filtered_push(dl.take(i as int + 1), text@);
            assert(dl.take(i as int + 1).drop_last() =~= dl.take(i as int));
            assert(dl.take(i as int + 1).last() == dl[i as int]);
        }
        if starts_with(list[i].as_str(), text) {
            let ghost before = h.deep_view();
            h.push(list[i].clone());
            assert(h.deep_view() =~= before.push(dl[i as int]));
        }
        i = i + 1;
    }
    assert(dl.take(dl.len() as int) =~= dl);
    h
}

} // verus!
