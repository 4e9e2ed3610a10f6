//! Filtering and mapping lists with a function that the caller gives.

use vstd::prelude::*;

verus! {

/// The items for which the flag at their place is set, in order.
pub open spec fn chosen<T>(items: Seq<T>, flags: Seq<bool>) -> Seq<T>
    decreases items.len(),
{
    if items.len() == 0 || flags.len() != items.len() {
        Seq::empty()
    } else if flags.last() {
        chosen(items.drop_last(), flags.drop_last()).push(items.last())
    } else {
        chosen(items.drop_last(), flags.drop_last())
    }
}

/// `flags` are answers of `pred` for the items, one for each.
pub open spec fn answers<T, F: Fn(&T) -> bool>(pred: F, items: Seq<T>, flags: Seq<bool>) -> bool {
    &&& flags.len() == items.len()
    &&& forall|i: int| 0 <= i < items.len() ==> call_ensures(pred, (&items[i],), #[trigger] flags[i])
}

/// `copies` are clones of `items`, one for each.
pub open spec fn clones<T: Clone>(items: Seq<T>, copies: Seq<T>) -> bool {
    &&& copies.len() == items.len()
    &&& forall|i: int| 0 <= i < items.len() ==> cloned(#[trigger] items[i], copies[i])
}

/// The items for which `pred` answers yes, each cloned, in their order.
pub fn filter<T: Clone, F: Fn(&T) -> bool>(items: &Vec<T>, pred: F) -> (kept: Vec<T>)
    requires
        forall|i: int| 0 <= i < items.len() ==> call_requires(pred, (&#[trigger] items@[i],)),
    ensures
        exists|flags: Seq<bool>| #[trigger]
            answers(pred, items@, flags) && clones(chosen(items@, flags), kept@),
{
    let mut kept: Vec<T> = Vec::new();
    let ghost mut flags: Seq<bool> = Seq::empty();
    let mut i: usize = 0;
    assert(items@.take(0) =~= Seq::empty());
    while i < items.len()
        invariant
            0 <= i <= items.len(),
            forall|k: int| 0 <= k < items.len() ==> call_requires(pred, (&#[trigger] items@[k],)),
            answers(pred, items@.take(i as int), flags),
            clones(chosen(items@.take(i as int), flags), kept@),
        decreases items.len() - i,
    {
        let ghost before = chosen(items@.take(i as int), flags);
        let ghost copies = kept@;
        let keep = pred(&items[i]);
        if keep {
            kept.push(items[i].clone());
        }
        proof {
            let more = flags.push(keep);
            assert(items@.take(i + 1).drop_last() =~= items@.take(i as int));
            assert(more.drop_last() =~= flags);
            assert(answers(pred, items@.take(i + 1), more));
            if keep {
                assert(chosen(items@.take(i + 1), more) == before.push(items@[i as int]));
                assert(kept@ == copies.push(kept@[copies.len() as int]));
            }
            flags = more;
        }
        i += 1;
    }
    assert(items@.take(i as int) =~= items@);
    kept
}

/// What `func` makes of each item, in their order.
pub fn map<T, F: Fn(&T) -> T>(items: &Vec<T>, func: F) -> (made: Vec<T>)
    requires
        forall|i: int| 0 <= i < items.len() ==> call_requires(func, (&#[trigger] items@[i],)),
    ensures
        made@.len() == items@.len(),
        forall|i: int| 0 <= i < items.len() ==> call_ensures(func, (&items@[i],), #[trigger] made@[i]),
{
    let mut made: Vec<T> = Vec::new();
    let mut i: usize = 0;
    while i < items.len()
        invariant
            0 <= i <= items.len(),
            made@.len() == i,
            forall|k: int| 0 <= k < items.len() ==> call_requires(func, (&#[trigger] items@[k],)),
            forall|k: int| 0 <= k < i ==> call_ensures(func, (&items@[k],), #[trigger] made@[k]),
        decreases items.len() - i,
    {
        made.push(func(&items[i]));
        i += 1;
    }
    made
}

} // verus!
