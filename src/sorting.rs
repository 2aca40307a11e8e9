use vstd::prelude::*;

verus! {

/// The values never decrease from left to right.
pub open spec fn is_ascending(s: Seq<u32>) -> bool {
    forall|i: int, j: int| 0 <= i <= j < s.len() ==> s[i] <= s[j]
}

/// Adds `val` to `rack` and leaves the rack in ascending order: afterwards it
/// holds the old values and `val`, each as often as before, sorted.
pub fn push_sort(rack: &mut Vec<u32>, val: u32)
    ensures
        is_ascending(final(rack)@),
        final(rack)@.to_multiset() == old(rack)@.push(val).to_multiset(),
{
    rack.push(val);
    let ghost all = rack@.to_multiset();
    let n = rack.len();
    let mut i: usize = 1;
    while i < n
        invariant
            n == rack@.len(),
            1 <= i <= n || n == 0,
            rack@.to_multiset() == all,
            is_ascending(rack@.subrange(0, i as int)),
        decreases n - i,
    {
        let mut j: usize = i;
        proof {
            assert forall|a: int, b: int| 0 <= a <= b <= i && a != j && b != j implies rack@[a] <= rack@[b] by {
                assert(rack@.subrange(0, i as int)[a] == rack@[a]);
                assert(rack@.subrange(0, i as int)[b] == rack@[b]);
            }
        }
        while j > 0 && rack[j - 1] > rack[j]
            invariant
                n == rack@.len(),
                0 <= j <= i < n,
                rack@.to_multiset() == all,
                forall|a: int, b: int| 0 <= a <= b <= i && a != j && b != j ==> rack@[a] <= rack@[b],
                forall|b: int| j < b <= i ==> rack@[j as int] <= rack@[b],
            decreases j,
        {
            let ghost before = rack@;
            let left = rack[j - 1];
            let right = rack[j];
            rack.set(j - 1, right);
            rack.set(j, left);
            proof {
                assert(rack@ =~= before.update(j - 1, right).update(j as int, left));
                let mid = before.update(j - 1, right);
                vstd::seq_lib::to_multiset_update(before, j - 1, right);
                vstd::seq_lib::to_multiset_update(mid, j as int, left);
                vstd::seq_lib::to_multiset_contains(before, left);
                assert(before[j - 1] == left);
                assert(before.to_multiset().count(left) > 0);
                assert(before.to_multiset().insert(right).remove(left).insert(left).remove(right)
                    =~= before.to_multiset());
            }
            j -= 1;
        }
        proof {
            assert forall|a: int, b: int| 0 <= a <= b <= i implies rack@[a] <= rack@[b] by {
                if a == j && b != j && j > 0 {
                    assert(rack@[j as int] <= rack@[b]);
                } else if b == j && a != j {
                    assert(rack@[a] <= rack@[j - 1]);
                }
            }
        }
        i += 1;
        assert(is_ascending(rack@.subrange(0, i as int)));
    }
    assert(rack@.subrange(0, n as int) =~= rack@);
}

} // verus!
