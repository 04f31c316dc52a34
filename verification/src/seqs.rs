//! Facts about sequences that the proofs of the store's operations share.

use vstd::prelude::*;

verus! {

/// Keeping the items of the first `i + 1` that meet `keep` is keeping those of
/// the first `i`, and then the next item if it meets `keep`.
pub proof fn lemma_filter_next<A>(s: Seq<A>, keep: spec_fn(A) -> bool, i: int)
    requires
        0 <= i < s.len(),
    ensures
        s.take(i + 1).filter(keep) == if keep(s[i]) {
            s.take(i).filter(keep).push(s[i])
        } else {
            s.take(i).filter(keep)
        },
{
    assert(s.take(i + 1) =~= s.take(i).push(s[i]));
    s.take(i).lemma_filter_push(s[i], keep);
}

/// Nothing is kept of no items, and the first `s.len()` items are all of `s`.
pub proof fn lemma_filter_ends<A>(s: Seq<A>, keep: spec_fn(A) -> bool)
    ensures
        s.take(0).filter(keep) == Seq::<A>::empty(),
        s.take(s.len() as int) == s,
{
    reveal(Seq::filter);
    assert(s.take(0) =~= Seq::<A>::empty());
    assert(s.take(s.len() as int) =~= s);
}

/// What is kept of `s` is what `s` holds and meets `keep`.
pub proof fn lemma_filter_members<A>(s: Seq<A>, keep: spec_fn(A) -> bool)
    ensures
        forall|x: A| #[trigger] s.filter(keep).contains(x) <==> s.contains(x) && keep(x),
    decreases s.len(),
{
    reveal(Seq::filter);
    if s.len() > 0 {
        let init = s.drop_last();
        let kept = init.filter(keep);
        lemma_filter_members(init, keep);
        assert forall|x: A| #[trigger] s.filter(keep).contains(x) implies s.contains(x) && keep(
            x,
        ) by {
            let i = choose|i: int| 0 <= i < s.filter(keep).len() && s.filter(keep)[i] == x;
            if i < kept.len() {
                assert(kept[i] == x);
                assert(kept.contains(x));
                assert(init.contains(x));
                let j = choose|j: int| 0 <= j < init.len() && init[j] == x;
                assert(s[j] == x);
            } else {
                assert(s[s.len() - 1] == x);
            }
        }
        assert forall|x: A| s.contains(x) && keep(x) implies #[trigger] s.filter(keep).contains(
            x,
        ) by {
            let j = choose|j: int| 0 <= j < s.len() && s[j] == x;
            if j < init.len() {
                assert(init[j] == x);
                assert(init.contains(x));
                assert(kept.contains(x));
                let i = choose|i: int| 0 <= i < kept.len() && kept[i] == x;
                assert(s.filter(keep)[i] == x);
            } else {
                assert(s.filter(keep)[kept.len() as int] == x);
            }
        }
    }
}

/// Where nothing stands twice in `s`, nothing stands twice in what is kept of it.
pub proof fn lemma_filter_distinct<A>(s: Seq<A>, keep: spec_fn(A) -> bool)
    requires
        s.no_duplicates(),
    ensures
        s.filter(keep).no_duplicates(),
    decreases s.len(),
{
    reveal(Seq::filter);
    if s.len() > 0 {
        let init = s.drop_last();
        let kept = init.filter(keep);
        lemma_filter_distinct(init, keep);
        lemma_filter_members(init, keep);
        if keep(s.last()) {
            let out = kept.push(s.last());
            assert forall|i: int, j: int|
                0 <= i < out.len() && 0 <= j < out.len() && i != j implies out[i] != out[j] by {
                if i == kept.len() {
                    assert(kept.contains(kept[j]));
                    let k = choose|k: int| 0 <= k < init.len() && init[k] == kept[j];
                    assert(s[k] == kept[j]);
                } else if j == kept.len() {
                    assert(kept.contains(kept[i]));
                    let k = choose|k: int| 0 <= k < init.len() && init[k] == kept[i];
                    assert(s[k] == kept[i]);
                }
            }
        }
    }
}

} // verus!
