use vstd::prelude::*;

verus! {

/// The values never decrease from left to right.
pub open spec fn is_sorted(a: Seq<usize>) -> bool {
    forall|i: int, j: int| 0 <= i <= j < a.len() ==> a[i] <= a[j]
}

/// `r` answers a search for `target` in `a`: an index holding it, or
/// nothing when no element equals it.
pub open spec fn finds(a: Seq<usize>, target: usize, r: Option<usize>) -> bool {
    match r {
        Some(i) => i < a.len() && a[i as int] == target,
        None => !a.contains(target),
    }
}

/// Binary search for `target` in a sorted slice, halving a window of
/// candidate positions in a loop.
pub fn chop_flat_looping(target: usize, sorted_array: &[usize]) -> (r: Option<usize>)
    requires
        is_sorted(sorted_array@),
    ensures
        finds(sorted_array@, target, r),
{
    let mut start: usize = 0;
    let mut end: usize = sorted_array.len();
    loop
        invariant
            is_sorted(sorted_array@),
            start <= end <= sorted_array@.len(),
            forall|k: int| 0 <= k < start ==> sorted_array@[k] < target,
            forall|k: int| end <= k < sorted_array@.len() ==> sorted_array@[k] > target,
        decreases end - start,
    {
        let range_len = end - start;
        if range_len == 0 {
            proof {
                assert forall|k: int| 0 <= k < sorted_array@.len() implies sorted_array@[k] != target by {
                    if k < start {
                    } else {
                    }
                }
            }
            return None;
        }
        let array_search_index = start + range_len / 2;
        let hit = sorted_array[array_search_index];
        if hit == target {
            return Some(array_search_index);
        } else if range_len == 1 {
            proof {
                assert forall|k: int| 0 <= k < sorted_array@.len() implies sorted_array@[k] != target by {
                    if k < start {
                    } else if k >= end {
                    } else {
                        assert(k == array_search_index);
                    }
                }
            }
            return None;
        } else if hit < target {
            start = array_search_index + 1;
        } else {
            end = array_search_index;
        }
    }
}

/// The binary search over positions `start..end`, by recursion.
fn chop_recursive(target: usize, sorted_array: &[usize], start: usize, end: usize) -> (r: Option<usize>)
    requires
        is_sorted(sorted_array@),
        start <= end <= sorted_array@.len(),
        forall|k: int| 0 <= k < start ==> sorted_array@[k] < target,
        forall|k: int| end <= k < sorted_array@.len() ==> sorted_array@[k] > target,
    ensures
        finds(sorted_array@, target, r),
    decreases end - start,
{
    let range_len = end - start;
    if range_len == 0 {
        proof {
            assert forall|k: int| 0 <= k < sorted_array@.len() implies sorted_array@[k] != target by {
                if k < start {
                } else {
                }
            }
        }
        return None;
    }
    let array_search_index = start + range_len / 2;
    let hit = sorted_array[array_search_index];
    if hit == target {
        Some(array_search_index)
    } else if range_len == 1 {
        proof {
            assert forall|k: int| 0 <= k < sorted_array@.len() implies sorted_array@[k] != target by {
                if k < start {
                } else if k >= end {
                } else {
                    assert(k == array_search_index);
                }
            }
        }
        None
    } else if hit < target {
        chop_recursive(target, sorted_array, array_search_index + 1, end)
    } else {
        chop_recursive(target, sorted_array, start, array_search_index)
    }
}

/// Binary search for `target` in a sorted slice, halving the window of
/// candidate positions by recursion.
pub fn chop_stack_recursive(target: usize, sorted_array: &[usize]) -> (r: Option<usize>)
    requires
        is_sorted(sorted_array@),
    ensures
        finds(sorted_array@, target, r),
{
    chop_recursive(target, sorted_array, 0, sorted_array.len())
}

} // verus!
