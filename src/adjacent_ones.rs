use crate::text::{
    chars_of, contains_infix, find_from, find_infix, has_infix, lower_of, lowercase, parse_usize,
    parsed_usize,
};
use std::ops::{Range, RangeInclusive};
use std::str::FromStr;
use vstd::arithmetic::power2::{lemma2_to64, lemma_pow2_unfold, pow2};
use vstd::prelude::*;
use vstd::std_specs::range::ContainsSpec;

verus! {

/// A way of computing a single count.
#[derive(Debug)]
pub enum SingleCalc {
    Naive,
    Restacking,
}

/// A way of computing the counts for a range of lengths at once.
#[derive(Debug)]
pub enum MultiCalc {
    RestackingAndReusing,
}

/// The approaches to counting binary numbers without adjacent ones.
#[derive(Debug)]
pub enum CalcApproach {
    Single(SingleCalc),
    Multi(MultiCalc),
}

/// The approach that a lowercase name asks for: one mentioning "naive",
/// else "recycl", else "stack".
pub open spec fn approach_named(lower: Seq<char>) -> Option<CalcApproach> {
    if has_infix(lower, "naive"@) {
        Some(CalcApproach::Single(SingleCalc::Naive))
    } else if has_infix(lower, "recycl"@) {
        Some(CalcApproach::Multi(MultiCalc::RestackingAndReusing))
    } else if has_infix(lower, "stack"@) {
        Some(CalcApproach::Single(SingleCalc::Restacking))
    } else {
        None
    }
}

/// The approach that the lowercase name `lower` asks for.
pub fn approach_from_lowercase(lower: &Vec<char>) -> (r: Option<CalcApproach>)
    ensures
        r == approach_named(lower@),
{
    if contains_infix(lower, &chars_of("naive")) {
        Some(CalcApproach::Single(SingleCalc::Naive))
    } else if contains_infix(lower, &chars_of("recycl")) {
        Some(CalcApproach::Multi(MultiCalc::RestackingAndReusing))
    } else if contains_infix(lower, &chars_of("stack")) {
        Some(CalcApproach::Single(SingleCalc::Restacking))
    } else {
        None
    }
}

impl CalcApproach {
    /// The approach that `s` names, ignoring case.
    pub fn from_name(s: &str) -> (r: Option<CalcApproach>)
        ensures
            r == approach_named(lower_of(s@)),
    {
        let lower = lowercase(s);
        approach_from_lowercase(&chars_of(lower.as_str()))
    }
}

impl FromStr for CalcApproach {
    type Err = String;

    fn from_str(s: &str) -> Result<CalcApproach, String> {
        match CalcApproach::from_name(s) {
            Some(approach) => Ok(approach),
            None => Err(String::new()),
        }
    }
}

/// No two neighbouring binary digits of `k` are both one.
pub open spec fn no_adjacent_ones(k: nat) -> bool
    decreases k,
{
    if k < 2 {
        true
    } else {
        k % 4 != 3 && no_adjacent_ones(k / 2)
    }
}

/// How many numbers below `m` have no adjacent ones.
pub open spec fn count_below(m: nat) -> nat
    decreases m,
{
    if m == 0 {
        0
    } else {
        count_below((m - 1) as nat) + if no_adjacent_ones((m - 1) as nat) {
            1nat
        } else {
            0nat
        }
    }
}

/// The recurrence for strings of `n` binary digits without adjacent ones:
/// 1, 2, 3, 5, 8, ...
pub open spec fn no_adjacent_count(n: nat) -> nat
    decreases n,
{
    if n == 0 {
        1
    } else if n == 1 {
        2
    } else {
        no_adjacent_count((n - 1) as nat) + no_adjacent_count((n - 2) as nat)
    }
}

proof fn lemma_count_grows(a: nat, b: nat)
    requires
        a <= b,
    ensures
        no_adjacent_count(a) <= no_adjacent_count(b),
    decreases b - a,
{
    if a < b {
        lemma_count_grows(a, (b - 1) as nat);
    }
}

proof fn lemma_count_exceeds(n: nat)
    ensures
        no_adjacent_count(n) > n,
    decreases n,
{
    if n >= 2 {
        lemma_count_exceeds((n - 1) as nat);
        lemma_count_exceeds((n - 2) as nat);
    }
}

proof fn lemma_count_below_bounded(m: nat)
    ensures
        count_below(m) <= m,
    decreases m,
{
    if m > 0 {
        lemma_count_below_bounded((m - 1) as nat);
    }
}

/// Appending a zero digit keeps a number free of adjacent ones.
proof fn lemma_shift_keeps(k: nat)
    ensures
        no_adjacent_ones(2 * k) == no_adjacent_ones(k),
{
    if k > 0 {
        assert((2 * k) % 4 != 3);
        assert((2 * k) / 2 == k);
    }
}

/// How many `j` below `m` make `2j + 1` free of adjacent ones.
spec fn odd_count_below(m: nat) -> nat
    decreases m,
{
    if m == 0 {
        0
    } else {
        odd_count_below((m - 1) as nat) + if no_adjacent_ones((2 * (m - 1) + 1) as nat) {
            1nat
        } else {
            0nat
        }
    }
}

/// How many even `j` below `m` are free of adjacent ones.
spec fn even_count_below(m: nat) -> nat
    decreases m,
{
    if m == 0 {
        0
    } else {
        even_count_below((m - 1) as nat) + if (m - 1) % 2 == 0 && no_adjacent_ones((m - 1) as nat) {
            1nat
        } else {
            0nat
        }
    }
}

/// Below `2m`, the even numbers count as the numbers below `m`.
proof fn lemma_split_by_last_digit(m: nat)
    ensures
        count_below(2 * m) == count_below(m) + odd_count_below(m),
    decreases m,
{
    if m > 0 {
        let p = (m - 1) as nat;
        lemma_split_by_last_digit(p);
        lemma_shift_keeps(p);
        assert(2 * m == 2 * p + 2);
        assert(count_below((2 * p + 2) as nat) == count_below((2 * p + 1) as nat) + if no_adjacent_ones(
            (2 * p + 1) as nat,
        ) {
            1nat
        } else {
            0nat
        });
        assert(count_below((2 * p + 1) as nat) == count_below(2 * p) + if no_adjacent_ones(2 * p) {
            1nat
        } else {
            0nat
        });
    }
}

/// `2j + 1` is free of adjacent ones exactly when `j` is even and free of them.
proof fn lemma_odd_digit(j: nat)
    ensures
        no_adjacent_ones((2 * j + 1) as nat) == (j % 2 == 0 && no_adjacent_ones(j)),
{
    if j > 0 {
        let k = (2 * j + 1) as nat;
        assert(k / 2 == j);
        assert(k % 4 == 3 <==> j % 2 == 1) by {
            assert(k == 4 * (j / 2) + 2 * (j % 2) + 1);
        }
    }
}

proof fn lemma_odd_is_even(m: nat)
    ensures
        odd_count_below(m) == even_count_below(m),
    decreases m,
{
    if m > 0 {
        lemma_odd_is_even((m - 1) as nat);
        lemma_odd_digit((m - 1) as nat);
    }
}

proof fn lemma_even_count(m: nat)
    ensures
        even_count_below(2 * m) == count_below(m),
    decreases m,
{
    if m > 0 {
        let p = (m - 1) as nat;
        lemma_even_count(p);
        lemma_shift_keeps(p);
        assert(2 * m == 2 * p + 2);
        assert((2 * p + 1) % 2 == 1);
        assert((2 * p) % 2 == 0);
        assert(even_count_below((2 * p + 1) as nat) == even_count_below(2 * p) + if no_adjacent_ones(2 * p) {
            1nat
        } else {
            0nat
        });
    }
}

/// Counting the numbers below `2^n` digit by digit agrees with the
/// recurrence: for every length of at least one digit, `calc_naive` and
/// `calc_restacking` give the same count.
pub proof fn lemma_naive_matches_recurrence(n: nat)
    ensures
        count_below(pow2(n)) == no_adjacent_count(n),
    decreases n,
{
    lemma2_to64();
    if n == 0 {
        assert(count_below(1) == 1) by {
            assert(count_below(0) == 0);
        }
    } else if n == 1 {
        assert(count_below(2) == 2) by {
            assert(count_below(1) == 1) by {
                assert(count_below(0) == 0);
            }
            assert(no_adjacent_ones(1));
        }
    } else {
        let half = pow2((n - 1) as nat);
        let quarter = pow2((n - 2) as nat);
        lemma_pow2_unfold(n);
        lemma_pow2_unfold((n - 1) as nat);
        lemma_naive_matches_recurrence((n - 1) as nat);
        lemma_naive_matches_recurrence((n - 2) as nat);
        lemma_split_by_last_digit(half);
        lemma_odd_is_even(half);
        lemma_even_count(quarter);
    }
}

/// Counts the numbers below `2^digit_count` without adjacent ones by
/// checking each number's digits.
pub fn calc_naive(digit_count: usize) -> (r: usize)
    requires
        pow2(digit_count as nat) <= usize::MAX,
    ensures
        r == count_below(pow2(digit_count as nat)),
{
    let mut upper_bound: usize = 1;
    let mut e: usize = 0;
    proof {
        lemma2_to64();
    }
    while e < digit_count
        invariant
            e <= digit_count,
            pow2(digit_count as nat) <= usize::MAX,
            upper_bound == pow2(e as nat),
            upper_bound >= 1,
        decreases digit_count - e,
    {
        proof {
            lemma_pow2_unfold((e + 1) as nat);
            if e + 1 < digit_count {
                vstd::arithmetic::power2::lemma_pow2_strictly_increases((e + 1) as nat, digit_count as nat);
            }
        }
        upper_bound = upper_bound * 2;
        e += 1;
    }
    proof {
        lemma_shift_keeps(0);
        assert(count_below(1) == 1) by {
            assert(count_below(0) == 0);
        }
    }
    let mut binary_without_adjacent: usize = 1;
    let mut num: usize = 1;
    while num < upper_bound
        invariant
            upper_bound == pow2(digit_count as nat),
            1 <= num <= upper_bound,
            binary_without_adjacent == count_below(num as nat),
        decreases upper_bound - num,
    {
        let mut just_saw_1 = false;
        let mut rest: usize = num;
        let mut digit_n: usize = 0;
        let mut valid = true;
        proof {
            lemma_shift_keeps(num as nat);
        }
        while digit_n < digit_count && valid
            invariant
                digit_n <= digit_count,
                num < upper_bound == pow2(digit_count as nat),
                rest < pow2((digit_count - digit_n) as nat),
                valid ==> no_adjacent_ones(num as nat) == no_adjacent_ones(
                    (2 * rest + if just_saw_1 { 1nat } else { 0nat }) as nat,
                ),
                !valid ==> !no_adjacent_ones(num as nat),
            decreases digit_count - digit_n, if valid { 1int } else { 0int },
        {
            let bit = rest % 2;
            let ghost before = (2 * rest + if just_saw_1 { 1nat } else { 0nat }) as nat;
            proof {
                assert(before / 2 == rest as nat);
                lemma_pow2_unfold((digit_count - digit_n) as nat);
            }
            if bit == 1 && just_saw_1 {
                assert(before % 4 == 3);
                valid = false;
            } else {
                just_saw_1 = bit == 1;
                assert(rest == 2 * (rest / 2) + bit);
                rest = rest / 2;
                digit_n += 1;
            }
        }
        proof {
            if valid {
                assert(rest == 0) by {
                    assert(pow2(0) == 1) by {
                        lemma2_to64();
                    }
                }
            }
            lemma_count_below_bounded((num + 1) as nat);
        }
        if valid {
            binary_without_adjacent += 1;
        }
        num += 1;
    }
    binary_without_adjacent
}

/// Counts the numbers of `digit_count` binary digits without adjacent ones
/// by stepping the recurrence up from one digit; zero digits count as one.
pub fn calc_restacking(digit_count: usize) -> (r: usize)
    requires
        no_adjacent_count(digit_count as nat) <= usize::MAX,
    ensures
        r == no_adjacent_count(if digit_count == 0 { 1 } else { digit_count as nat }),
{
    let mut prev: usize = 1;
    let mut current: usize = 2;
    let mut i: usize = 2;
    while i <= digit_count
        invariant
            2 <= i,
            i <= digit_count + 1 || i == 2,
            no_adjacent_count(digit_count as nat) <= usize::MAX,
            prev == no_adjacent_count((i - 2) as nat),
            current == no_adjacent_count((i - 1) as nat),
        decreases digit_count + 1 - i,
    {
        proof {
            lemma_count_grows(i as nat, digit_count as nat);
            lemma_count_exceeds(digit_count as nat);
        }
        let new = current + prev;
        prev = current;
        current = new;
        i += 1;
    }
    current
}

/// The counts for the lengths `2..=m` that `range` holds, in order.
pub open spec fn reused_counts(range: RangeInclusive<usize>, m: int) -> Seq<usize>
    decreases m,
{
    if m < 2 {
        Seq::empty()
    } else {
        reused_counts(range, m - 1) + if range.contains_spec(&(m as usize)) {
            seq![no_adjacent_count(m as nat) as usize]
        } else {
            Seq::empty()
        }
    }
}

/// Relies on `RangeInclusive::end`: the range's inclusive upper bound.
#[verifier::external_body]
fn range_end(range: &RangeInclusive<usize>) -> (e: usize)
    ensures
        e == range@.end,
{
    *range.end()
}

/// Counts for every length of `digit_count_range` from two digits on,
/// stepping the recurrence once up to the range's end.
pub fn calc_restacking_reusing(digit_count_range: &RangeInclusive<usize>) -> (r: Vec<usize>)
    requires
        no_adjacent_count(digit_count_range@.end as nat) <= usize::MAX,
    ensures
        r@ == reused_counts(*digit_count_range, digit_count_range@.end as int),
{
    let end = range_end(digit_count_range);
    let mut prev: usize = 1;
    let mut current: usize = 2;
    let mut results: Vec<usize> = Vec::new();
    let mut i: usize = 2;
    while i <= end
        invariant
            2 <= i,
            i <= end + 1 || i == 2,
            end == digit_count_range@.end,
            no_adjacent_count(end as nat) <= usize::MAX,
            prev == no_adjacent_count((i - 2) as nat),
            current == no_adjacent_count((i - 1) as nat),
            results@ == reused_counts(*digit_count_range, i - 1),
        decreases end + 1 - i,
    {
        proof {
            lemma_count_grows(i as nat, end as nat);
            lemma_count_exceeds(end as nat);
        }
        let new = current + prev;
        prev = current;
        current = new;
        if digit_count_range.contains(&i) {
            results.push(current);
        }
        assert(results@ =~= reused_counts(*digit_count_range, i as int));
        i += 1;
    }
    results
}

/// The inclusive range holding the same numbers as a nonempty half-open one.
pub fn to_inclusive(range: Range<usize>) -> (r: RangeInclusive<usize>)
    requires
        range.end >= 1,
    ensures
        r@.start == range.start,
        r@.end == range.end - 1,
        !r@.exhausted,
{
    range.start..=(range.end - 1)
}

/// The inclusive bounds that a range argument writes: `a..=b`, or `a..b`
/// for `a..=b-1`, with `a` and `b` decimal numbers; nothing for other text.
pub open spec fn range_bounds(s: Seq<char>) -> Option<(usize, usize)> {
    match find_from(s, "..="@, 0) {
        Some(i) => match (parsed_usize(s.subrange(0, i)), parsed_usize(s.subrange(i + "..="@.len(), s.len() as int))) {
            (Some(a), Some(b)) => Some((a, b)),
            _ => None,
        },
        None => match find_from(s, ".."@, 0) {
            Some(i) => match (parsed_usize(s.subrange(0, i)), parsed_usize(s.subrange(i + ".."@.len(), s.len() as int))) {
                (Some(a), Some(b)) => if b >= 1 {
                    Some((a, (b - 1) as usize))
                } else {
                    None
                },
                _ => None,
            },
            None => None,
        },
    }
}

/// Reads a range of digit counts written `a..=b` or `a..b`.
pub fn parse_range(input: &str) -> (r: Option<RangeInclusive<usize>>)
    ensures
        r matches Some(range) ==> range_bounds(input@) == Some((range@.start, range@.end))
            && !range@.exhausted,
        r is None <==> range_bounds(input@) is None,
{
    let text = chars_of(input);
    let inclusive = chars_of("..=");
    match find_infix(&text, &inclusive) {
        Some(i) => {
            let first = parse_usize(&text, 0, i);
            let second = parse_usize(&text, i + inclusive.len(), text.len());
            match (first, second) {
                (Some(a), Some(b)) => Some(a..=b),
                _ => None,
            }
        },
        None => {
            let exclusive = chars_of("..");
            match find_infix(&text, &exclusive) {
                Some(i) => {
                    let first = parse_usize(&text, 0, i);
                    let second = parse_usize(&text, i + exclusive.len(), text.len());
                    match (first, second) {
                        (Some(a), Some(b)) => if b >= 1 {
                            Some(to_inclusive(a..b))
                        } else {
                            None
                        },
                        _ => None,
                    }
                },
                None => None,
            }
        },
    }
}

} // verus!
