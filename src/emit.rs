//! Which carving steps a debug image is emitted at.
use vstd::prelude::*;

verus! {

pub open spec fn strictly_increasing(s: Seq<u32>) -> bool {
    forall|i: int, j: int| 0 <= i < j < s.len() ==> #[trigger] s[i] < #[trigger] s[j]
}

/// Adds `x` to a strictly increasing vector, where it is not there yet.
fn insert_sorted(v: &mut Vec<u32>, x: u32)
    requires
        strictly_increasing(old(v)@),
    ensures
        strictly_increasing(final(v)@),
        forall|y: u32| final(v)@.contains(y) <==> (old(v)@.contains(y) || y == x),
{
    let n = v.len();
    let mut i: usize = 0;
    while i < n && v[i] < x
        invariant
            n == v@.len(),
            i <= n,
            forall|j: int| 0 <= j < i ==> #[trigger] v@[j] < x,
        decreases n - i,
    {
        i = i + 1;
    }
    if i < n && v[i] == x {
        assert(v@[i as int] == x);
        return;
    }
    let ghost before = v@;
    v.insert(i, x);
    proof {
        assert(v@[i as int] == x);
        assert(v@.len() == before.len() + 1);
        assert forall|a: int, b: int| 0 <= a < b < v@.len() implies #[trigger] v@[a] < #[trigger] v@[b] by {
            if a < i as int && b < i as int {
                assert(v@[a] == before[a] && v@[b] == before[b]);
            } else if a < i as int && b == i as int {
            } else if a < i as int && b > i as int {
                assert(v@[b] == before[b - 1]);
            } else if a == i as int {
                assert(v@[b] == before[b - 1]);
                assert(before[i as int] > x);
                if b - 1 > i as int {
                    assert(before[i as int] < before[b - 1]);
                }
            } else {
                assert(v@[a] == before[a - 1] && v@[b] == before[b - 1]);
            }
        }
        assert forall|y: u32| v@.contains(y) <==> (before.contains(y) || y == x) by {
            if before.contains(y) {
                let k = choose|k: int| 0 <= k < before.len() && before[k] == y;
                if k < i {
                    assert(v@[k] == y);
                } else {
                    assert(v@[k + 1] == y);
                }
            }
            if v@.contains(y) {
                let k = choose|k: int| 0 <= k < v@.len() && v@[k] == y;
                if k < i {
                    assert(before[k] == y);
                } else if k > i {
                    assert(before[k - 1] == y);
                } else {
                    assert(y == x);
                }
            }
            if y == x {
                assert(v@[i as int] == x);
            }
        }
    }
}

/// Sorts out requested emission steps for a run of `passes` carving steps. Returns whether step
/// 0 (before any carving) was asked for, and the other distinct steps in increasing order; or,
/// where some requested steps lie beyond `passes`, those steps, distinct and in increasing order.
pub fn plan_emissions(steps: &Vec<u32>, passes: u32) -> (r: Result<(bool, Vec<u32>), Vec<u32>>)
    ensures
        r is Err <==> exists|k: int| 0 <= k < steps@.len() && steps@[k] > passes,
        r matches Err(bad) ==> strictly_increasing(bad@) && forall|y: u32|
            bad@.contains(y) <==> (steps@.contains(y) && y > passes),
        r matches Ok((zero, rest)) ==> zero == steps@.contains(0u32) && strictly_increasing(rest@)
            && forall|y: u32| rest@.contains(y) <==> (steps@.contains(y) && y != 0),
{
    let mut zero = false;
    let mut rest: Vec<u32> = Vec::new();
    let mut bad: Vec<u32> = Vec::new();
    let n = steps.len();
    let mut i: usize = 0;
    while i < n
        invariant
            n == steps@.len(),
            i <= n,
            strictly_increasing(rest@),
            strictly_increasing(bad@),
            zero == steps@.take(i as int).contains(0u32),
            forall|y: u32|
                rest@.contains(y) <==> (steps@.take(i as int).contains(y) && y != 0 && y <= passes),
            forall|y: u32| bad@.contains(y) <==> (steps@.take(i as int).contains(y) && y > passes),
        decreases n - i,
    {
        let s = steps[i];
        let ghost prev = steps@.take(i as int);
        let ghost next = steps@.take(i + 1);
        proof {
            assert(next =~= prev.push(s));
            assert forall|y: u32| next.contains(y) <==> (prev.contains(y) || y == s) by {
                if next.contains(y) {
                    let k = choose|k: int| 0 <= k < next.len() && next[k] == y;
                    if k < prev.len() {
                        assert(prev[k] == y);
                    }
                }
                if prev.contains(y) {
                    let k = choose|k: int| 0 <= k < prev.len() && prev[k] == y;
                    assert(next[k] == y);
                }
                if y == s {
                    assert(next[i as int] == s);
                }
            }
        }
        if s > passes {
            insert_sorted(&mut bad, s);
        } else if s == 0 {
            zero = true;
        } else {
            insert_sorted(&mut rest, s);
        }
        i = i + 1;
    }
    proof {
        assert(steps@.take(n as int) =~= steps@);
    }
    if bad.len() > 0 {
        proof {
            assert(bad@.contains(bad@[0]));
            let k = choose|k: int| 0 <= k < steps@.len() && steps@[k] == bad@[0];
        }
        Err(bad)
    } else {
        proof {
            assert forall|k: int| 0 <= k < steps@.len() implies !(steps@[k] > passes) by {
                if steps@[k] > passes {
                    assert(steps@.contains(steps@[k]));
                    assert(bad@.contains(steps@[k]));
                }
            }
        }
        Ok((zero, rest))
    }
}

} // verus!
