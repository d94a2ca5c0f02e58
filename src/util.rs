//! Small collection helpers.
use vstd::prelude::*;

verus! {

/// The entries `s[i]`, `i < n`, with `keep[i]` set, in their order.
pub open spec fn select<T>(s: Seq<T>, keep: Seq<bool>, n: int) -> Seq<T>
    decreases n,
{
    if n <= 0 {
        Seq::empty()
    } else if keep[n - 1] {
        select(s, keep, n - 1).push(s[n - 1])
    } else {
        select(s, keep, n - 1)
    }
}

/// `predicate` answered `b` when asked about `elem` with `prefix` kept before it.
pub open spec fn answered<T, F: Fn(&Vec<T>, T) -> bool>(predicate: F, prefix: Seq<T>, elem: T, b: bool) -> bool {
    exists|kept: &Vec<T>| kept@ == prefix && #[trigger] predicate.ensures((kept, elem), b)
}

/// In-place filtering of a vector, where the decision on each element may look at the elements
/// kept before it.
pub trait VecRemoveExt<T: Copy>: Sized {
    spec fn elems(&self) -> Seq<T>;

    /// Keeps, in order, the elements for which `predicate(kept, elem)` holds, `kept` being the
    /// elements kept so far.
    fn keep_where<F: Fn(&Vec<T>, T) -> bool>(&mut self, predicate: F)
        requires
            forall|kept: &Vec<T>, elem: T| #[trigger] predicate.requires((kept, elem)),
        ensures
            exists|keep: Seq<bool>|
                {
                    &&& keep.len() == old(self).elems().len()
                    &&& final(self).elems() == select(old(self).elems(), keep, keep.len() as int)
                    &&& forall|i: int|
                        0 <= i < keep.len() ==> #[trigger] answered(
                            predicate,
                            select(old(self).elems(), keep, i),
                            old(self).elems()[i],
                            keep[i],
                        )
                },
    ;
}

impl<T: Copy> VecRemoveExt<T> for Vec<T> {
    open spec fn elems(&self) -> Seq<T> {
        self@
    }

    fn keep_where<F: Fn(&Vec<T>, T) -> bool>(&mut self, predicate: F) {
        let ghost input = self@;
        let mut kept: Vec<T> = Vec::new();
        let ghost mut keep: Seq<bool> = Seq::empty();
        let n = self.len();
        let mut i: usize = 0;
        while i < n
            invariant
                n == input.len(),
                self@ == input,
                i <= n,
                keep.len() == i,
                kept@ == select(input, keep, i as int),
                forall|kept: &Vec<T>, elem: T| #[trigger] predicate.requires((kept, elem)),
                forall|j: int|
                    0 <= j < i ==> #[trigger] answered(
                        predicate,
                        select(input, keep, j),
                        input[j],
                        keep[j],
                    ),
            decreases n - i,
        {
            let elem = self[i];
            let so_far = &kept;
            let take = predicate(so_far, elem);
            let ghost old_keep = keep;
            if take {
                kept.push(elem);
            }
            proof {
                keep = keep.push(take);
                assert forall|j: int| 0 <= j <= i implies select(input, keep, j) == select(
                    input,
                    old_keep,
                    j,
                ) by {
                    lemma_select_prefix(input, old_keep, keep, j);
                }
                assert forall|j: int| 0 <= j < i + 1 implies #[trigger] answered(
                    predicate,
                    select(input, keep, j),
                    input[j],
                    keep[j],
                ) by {
                    if j == i {
                        assert(so_far@ == select(input, keep, j));
                        assert(predicate.ensures((so_far, input[j]), keep[j]));
                    } else {
                        assert(answered(
                            predicate,
                            select(input, old_keep, j),
                            input[j],
                            old_keep[j],
                        ));
                    }
                }
            }
            i = i + 1;
        }
        *self = kept;
        assert(self.elems() == select(input, keep, keep.len() as int));
    }
}

/// Extending the choices past `n` leaves the selection from the first `n` entries as it was.
proof fn lemma_select_prefix<T>(s: Seq<T>, a: Seq<bool>, b: Seq<bool>, n: int)
    requires
        0 <= n <= a.len(),
        a.len() <= b.len(),
        forall|k: int| 0 <= k < a.len() ==> a[k] == b[k],
    ensures
        select(s, a, n) == select(s, b, n),
    decreases n,
{
    if n > 0 {
        lemma_select_prefix(s, a, b, n - 1);
    }
}

} // verus!
