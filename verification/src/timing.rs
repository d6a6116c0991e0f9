//! Helpers for presenting render timing statistics.
use vstd::prelude::*;

verus! {

/// Yields the items up to and including the first one for which `f` returns
/// `true`, and no more. If `f` is `true` for no item, all items are yielded.
pub fn break_once<T, F: Fn(&T) -> bool>(items: Vec<T>, f: F) -> (taken: Vec<T>)
    requires
        forall|x: &T| #[trigger] f.requires((x,)),
    ensures
        taken.len() <= items.len(),
        taken@ == items@.subrange(0, taken.len() as int),
        forall|i: int| 0 <= i < taken.len() - 1 ==> f.ensures((&#[trigger] taken@[i],), false),
        taken.len() < items.len() ==> taken.len() > 0 && f.ensures((&taken@[taken.len() - 1],), true),
{
    let ghost orig = items@;
    let mut rest = items;
    let mut taken: Vec<T> = Vec::new();
    let mut got_true = false;
    while rest.len() > 0 && !got_true
        invariant
            forall|x: &T| #[trigger] f.requires((x,)),
            taken@ + rest@ == orig,
            forall|i: int| 0 <= i < taken.len() - 1 ==> f.ensures((&#[trigger] taken@[i],), false),
            got_true ==> taken.len() > 0 && f.ensures((&taken@[taken.len() - 1],), true),
            !got_true && taken.len() > 0 ==> f.ensures((&taken@[taken.len() - 1],), false),
        decreases rest.len(),
    {
        let item = rest.remove(0);
        let hit = f(&item);
        got_true = hit;
        taken.push(item);
        assert(taken@ + rest@ =~= orig);
    }
    assert(taken@ =~= orig.subrange(0, taken.len() as int));
    taken
}

} // verus!
