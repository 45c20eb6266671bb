use vstd::prelude::*;

verus! {

/// `idx` maps each position of `sub` to the position of `s` it came from,
/// in increasing order: `sub` is a subsequence of `s`.
pub open spec fn subsequence_via<T>(s: Seq<T>, sub: Seq<T>, idx: Seq<int>) -> bool {
    &&& idx.len() == sub.len()
    &&& forall|i: int| 0 <= i < idx.len() ==> 0 <= #[trigger] idx[i] < s.len() && sub[i] == s[idx[i]]
    &&& forall|i: int, j: int| 0 <= i < j < idx.len() ==> #[trigger] idx[i] < #[trigger] idx[j]
}

proof fn lemma_filter_single<T>(x: T, pred: spec_fn(T) -> bool)
    ensures
        seq![x].filter(pred) == if pred(x) { seq![x] } else { Seq::<T>::empty() },
{
    reveal_with_fuel(Seq::filter, 2);
    assert(seq![x].drop_last() =~= Seq::<T>::empty());
}

/// Every element of a filtered sequence is an element of the sequence.
pub proof fn lemma_filter_member<T>(s: Seq<T>, pred: spec_fn(T) -> bool, i: int)
    requires
        0 <= i < s.filter(pred).len(),
    ensures
        s.contains(s.filter(pred)[i]),
        pred(s.filter(pred)[i]),
    decreases s.len(),
{
    reveal_with_fuel(Seq::filter, 1);
    s.lemma_filter_pred(pred, i);
    if s.len() > 0 {
        let sub = s.drop_last().filter(pred);
        if i < sub.len() {
            lemma_filter_member(s.drop_last(), pred, i);
            let j = choose|j: int| 0 <= j < s.drop_last().len() && s.drop_last()[j] == sub[i];
            assert(s[j] == s.filter(pred)[i]);
        } else {
            assert(s[s.len() - 1] == s.filter(pred)[i]);
        }
    }
}

/// Removes, in place and keeping the order of the others, every element
/// whose flag in `keep` is unset.
pub fn retain_marked<T>(v: &mut Vec<T>, keep: &Vec<bool>, Ghost(pred): Ghost<spec_fn(T) -> bool>)
    requires
        keep@.len() == old(v)@.len(),
        forall|i: int| 0 <= i < keep@.len() ==> keep@[i] == pred(#[trigger] old(v)@[i]),
    ensures
        final(v)@ == old(v)@.filter(pred),
        exists|idx: Seq<int>| subsequence_via(old(v)@, final(v)@, idx),
{
    let ghost orig = v@;
    let mut k: usize = v.len();
    let ghost mut idx: Seq<int> = Seq::new(orig.len(), |i: int| i);
    assert(orig.skip(orig.len() as int).filter(pred) =~= Seq::<T>::empty()) by {
        assert(orig.skip(orig.len() as int) =~= Seq::<T>::empty());
    }
    assert(v@ =~= orig.take(k as int) + orig.skip(k as int).filter(pred));
    while k > 0
        invariant
            keep@.len() == orig.len(),
            forall|i: int| 0 <= i < keep@.len() ==> keep@[i] == pred(#[trigger] orig[i]),
            k <= orig.len(),
            v@ == orig.take(k as int) + orig.skip(k as int).filter(pred),
            subsequence_via(orig, v@, idx),
            forall|i: int| 0 <= i < k ==> #[trigger] idx[i] == i,
            v@.len() >= k,
        decreases k,
    {
        let j = k - 1;
        let ghost x = orig[j as int];
        proof {
            assert(orig.skip(j as int) =~= seq![x] + orig.skip(k as int));
            Seq::filter_distributes_over_add(seq![x], orig.skip(k as int), pred);
            lemma_filter_single(x, pred);
            assert(orig.take(k as int) =~= orig.take(j as int).push(x));
        }
        if !keep[j] {
            let ghost before = v@;
            v.remove(j);
            proof {
                assert(v@ =~= orig.take(j as int) + orig.skip(k as int).filter(pred));
                let new_idx = idx.remove(j as int);
                assert forall|i: int| 0 <= i < new_idx.len() implies 0 <= #[trigger] new_idx[i] < orig.len() && v@[i] == orig[new_idx[i]] by {
                    if i < j {
                        assert(new_idx[i] == idx[i]);
                    } else {
                        assert(new_idx[i] == idx[i + 1]);
                        assert(v@[i] == before[i + 1]);
                    }
                }
                assert forall|a: int, b: int| 0 <= a < b < new_idx.len() implies #[trigger] new_idx[a] < #[trigger] new_idx[b] by {
                    if a < j {
                        assert(new_idx[a] == idx[a]);
                    } else {
                        assert(new_idx[a] == idx[a + 1]);
                    }
                    if b < j {
                        assert(new_idx[b] == idx[b]);
                    } else {
                        assert(new_idx[b] == idx[b + 1]);
                    }
                }
                idx = new_idx;
            }
        } else {
            proof {
                assert(v@ =~= orig.take(j as int) + orig.skip(j as int).filter(pred));
            }
        }
        k = j;
    }
    proof {
        assert(orig.take(0) =~= Seq::<T>::empty());
        assert(orig.skip(0) =~= orig);
        assert(v@ =~= orig.filter(pred));
    }
}

} // verus!
