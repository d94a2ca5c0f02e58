//! The rank of each cell of an energy grid among all cells, for viewing the grid as gray levels.
use crate::kernel::VecKernel;
use crate::seam::WeightImage;
use vstd::prelude::*;

verus! {

/// Cells are ordered by energy, and cells of equal energy by their row-major index.
pub open spec fn before(a: (u32, usize), b: (u32, usize)) -> bool {
    a.0 < b.0 || (a.0 == b.0 && a.1 < b.1)
}

pub open spec fn not_after(a: (u32, usize), b: (u32, usize)) -> bool {
    a.0 < b.0 || (a.0 == b.0 && a.1 <= b.1)
}

/// Relies on `slice::sort` (std): the same elements, in ascending order, tuples comparing
/// lexicographically.
#[verifier::external_body]
fn sort_pairs(v: &mut Vec<(u32, usize)>)
    ensures
        final(v)@.to_multiset() == old(v)@.to_multiset(),
        forall|i: int, j: int|
            0 <= i < j < final(v)@.len() ==> not_after(#[trigger] final(v)@[i], #[trigger] final(v)@[j]),
{
    v.sort();
}

/// The rank of every cell of `energy` in the order of `before`: 0 for the first cell, one less
/// than the number of cells for the last.
pub fn rank_cells(energy: &WeightImage) -> (r: VecKernel<usize>)
    requires
        energy.wf(),
    ensures
        r.wf(),
        r@.width == energy@.width,
        r@.height == energy@.height,
        forall|i: int| 0 <= i < r@.cells.len() ==> #[trigger] r@.cells[i] < r@.cells.len(),
        forall|i: int, j: int|
            0 <= i < r@.cells.len() && 0 <= j < r@.cells.len() ==> (#[trigger] r@.cells[i]
                < #[trigger] r@.cells[j] <==> before(
                (energy@.cells[i], i as usize),
                (energy@.cells[j], j as usize),
            )),
{
    let cells = energy.as_vec();
    let n = cells.len();
    let mut pairs: Vec<(u32, usize)> = Vec::new();
    let mut i: usize = 0;
    while i < n
        invariant
            n == cells@.len(),
            i <= n,
            pairs@.len() == i,
            forall|k: int| 0 <= k < i ==> #[trigger] pairs@[k] == (cells@[k], k as usize),
        decreases n - i,
    {
        pairs.push((cells[i], i));
        i = i + 1;
    }
    let ghost input = pairs@;
    proof {
        assert(input.no_duplicates()) by {
            assert forall|a: int, b: int| 0 <= a < input.len() && 0 <= b < input.len() && a != b implies input[a]
                != input[b] by {
                assert(input[a].1 == a && input[b].1 == b);
            }
        }
        input.lemma_multiset_has_no_duplicates();
    }
    sort_pairs(&mut pairs);
    let ghost sorted = pairs@;
    proof {
        broadcast use vstd::seq_lib::to_multiset_contains;
        broadcast use vstd::seq_lib::to_multiset_len;

        assert(sorted.to_multiset().len() == input.to_multiset().len());
        assert(sorted.len() == n);
        sorted.lemma_multiset_has_no_duplicates_conv();
        assert forall|k: int| 0 <= k < n implies #[trigger] sorted[k] == (
            cells@[sorted[k].1 as int],
            sorted[k].1,
        ) && sorted[k].1 < n by {
            assert(sorted.to_multiset().count(sorted[k]) > 0);
            assert(input.contains(sorted[k]));
        }
    }
    let mut ranks: Vec<usize> = Vec::new();
    let mut m: usize = 0;
    while m < n
        invariant
            m <= n,
            ranks@.len() == m,
        decreases n - m,
    {
        ranks.push(0);
        m = m + 1;
    }
    let mut k: usize = 0;
    while k < n
        invariant
            n == cells@.len(),
            n == sorted.len(),
            pairs@ == sorted,
            ranks@.len() == n,
            k <= n,
            sorted.no_duplicates(),
            forall|q: int| 0 <= q < n ==> #[trigger] sorted[q] == (cells@[sorted[q].1 as int], sorted[q].1)
                && sorted[q].1 < n,
            forall|q: int| 0 <= q < k ==> #[trigger] ranks@[sorted[q].1 as int] == q,
        decreases n - k,
    {
        let at = pairs[k].1;
        proof {
            assert forall|q: int| 0 <= q < k implies sorted[q].1 != at by {
                assert(sorted[q] == (cells@[sorted[q].1 as int], sorted[q].1));
                assert(sorted[k as int] == (cells@[at as int], at));
                if sorted[q].1 == at {
                    assert(sorted[q] == sorted[k as int]);
                }
            }
        }
        ranks.set(at, k);
        k = k + 1;
    }
    proof {
        broadcast use vstd::seq_lib::to_multiset_contains;

        assert forall|i: int| #![trigger input[i]] 0 <= i < n implies exists|q: int|
            0 <= q < n && #[trigger] sorted[q] == input[i] by {
            assert(input.to_multiset().count(input[i]) > 0);
            assert(sorted.contains(input[i]));
        }
        assert forall|i: int| 0 <= i < n implies #[trigger] ranks@[i] < n by {
            assert(input[i] == input[i]);
            let q = choose|q: int| 0 <= q < n && #[trigger] sorted[q] == input[i];
            assert(ranks@[sorted[q].1 as int] == q);
        }
        assert forall|i: int, j: int| 0 <= i < n && 0 <= j < n implies (#[trigger] ranks@[i]
            < #[trigger] ranks@[j] <==> before((cells@[i], i as usize), (cells@[j], j as usize))) by {
            assert(input[i] == input[i] && input[j] == input[j]);
            let qi = choose|q: int| 0 <= q < n && #[trigger] sorted[q] == input[i];
            let qj = choose|q: int| 0 <= q < n && #[trigger] sorted[q] == input[j];
            assert(ranks@[sorted[qi].1 as int] == qi);
            assert(ranks@[sorted[qj].1 as int] == qj);
            if qi < qj {
                assert(not_after(sorted[qi], sorted[qj]));
                assert(sorted[qi] != sorted[qj]);
            } else if qj < qi {
                assert(not_after(sorted[qj], sorted[qi]));
            }
        }
    }
    let (w, h) = energy.size();
    VecKernel::from_vec(w, h, ranks)
}

} // verus!
