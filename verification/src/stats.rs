//! The largest item, the median and the mode of a list.

use std::collections::HashMap;
use vstd::prelude::*;
use vstd::seq_lib::group_to_multiset_ensures;

verus! {

/// A median, kept as twice its value so that a median between two integers
/// is exact: the median of 1, 2, 3, 4 is two and a half, and `doubled` is 5.
#[derive(Debug, Clone, Copy, PartialEq, Eq)]
pub struct Median {
    pub doubled: i64,
}

/// Whether `s` is in ascending order.
pub open spec fn is_ascending(s: Seq<i32>) -> bool {
    forall|i: int, j: int| 0 <= i <= j < s.len() ==> s[i] <= s[j]
}

/// Twice the item in the middle of `s`, or, where `s` has two items in the
/// middle, their sum.
pub open spec fn middle_doubled(s: Seq<i32>) -> int {
    let n = s.len() as int;
    if n % 2 == 0 {
        s[n / 2 - 1] + s[n / 2]
    } else {
        2 * s[n / 2]
    }
}

/// How often `value` occurs in `s`.
pub open spec fn occurrences(s: Seq<i32>, value: i32) -> nat {
    s.to_multiset().count(value)
}

/// Whether `value` is the mode of `s` and occurs `count` times: no item
/// occurs more often, and of the items that occur as often it is the
/// smallest.
pub open spec fn is_mode(s: Seq<i32>, value: i32, count: nat) -> bool {
    &&& s.contains(value)
    &&& count == occurrences(s, value)
    &&& forall|other: i32| occurrences(s, other) <= count
    &&& forall|other: i32| occurrences(s, other) == count ==> value <= other
}

/// In a list in ascending order, the first half of the items is at or below
/// the middle and the second half at or above it: the middle is the median.
pub proof fn lemma_middle_is_median(s: Seq<i32>)
    requires
        s.len() > 0,
        is_ascending(s),
    ensures
        forall|i: int| 0 <= i < (s.len() + 1) / 2 ==> 2 * s[i] <= middle_doubled(s),
        forall|i: int| s.len() / 2 <= i < s.len() ==> middle_doubled(s) <= 2 * s[i],
{
    let n = s.len() as int;
    assert forall|i: int| 0 <= i < (n + 1) / 2 implies 2 * s[i] <= middle_doubled(s) by {
        if n % 2 == 0 {
            assert(s[i] <= s[n / 2 - 1]);
            assert(s[i] <= s[n / 2]);
        } else {
            assert(s[i] <= s[n / 2]);
        }
    }
    assert forall|i: int| n / 2 <= i < n implies middle_doubled(s) <= 2 * s[i] by {
        if n % 2 == 0 {
            assert(s[n / 2 - 1] <= s[i]);
            assert(s[n / 2] <= s[i]);
        } else {
            assert(s[n / 2] <= s[i]);
        }
    }
}

/// A list has one mode only, with one count.
pub proof fn lemma_mode_is_unique(s: Seq<i32>, a: (i32, nat), b: (i32, nat))
    requires
        is_mode(s, a.0, a.1),
        is_mode(s, b.0, b.1),
    ensures
        a == b,
{
    assert(occurrences(s, b.0) <= a.1);
    assert(occurrences(s, a.0) <= b.1);
}

/// One more item at the end of `s` is counted once more, and every other
/// item as before.
proof fn lemma_occurrences_of_push(s: Seq<i32>, item: i32)
    ensures
        forall|v: i32| #[trigger]
            occurrences(s.push(item), v) == occurrences(s, v) + (if v == item {
                1nat
            } else {
                0nat
            }),
{
    broadcast use group_to_multiset_ensures;
    broadcast use vstd::multiset::group_multiset_axioms;

}

/// The largest number of a list that is not empty.
pub fn largest_i32(list: &[i32]) -> (largest: &i32)
    requires
        list@.len() > 0,
    ensures
        list@.contains(*largest),
        forall|i: int| 0 <= i < list@.len() ==> list@[i] <= *largest,
{
    let mut largest = &list[0];
    let mut i: usize = 1;
    while i < list.len()
        invariant
            1 <= i <= list@.len(),
            list@.contains(*largest),
            forall|j: int| 0 <= j < i ==> list@[j] <= *largest,
        decreases list@.len() - i,
    {
        if list[i] > *largest {
            largest = &list[i];
        }
        i += 1;
    }
    largest
}

/// The largest character, by code point, of a list that is not empty.
pub fn largest_char(list: &[char]) -> (largest: &char)
    requires
        list@.len() > 0,
    ensures
        list@.contains(*largest),
        forall|i: int| 0 <= i < list@.len() ==> list@[i] <= *largest,
{
    let mut largest = &list[0];
    let mut i: usize = 1;
    while i < list.len()
        invariant
            1 <= i <= list@.len(),
            list@.contains(*largest),
            forall|j: int| 0 <= j < i ==> list@[j] <= *largest,
        decreases list@.len() - i,
    {
        if list[i] > *largest {
            largest = &list[i];
        }
        i += 1;
    }
    largest
}

/// The middle of a list that is not empty: its median, where the list is in
/// ascending order. The list is taken as it is and not sorted.
pub fn find_median(int_list: &[i32]) -> (median: Median)
    requires
        int_list@.len() > 0,
    ensures
        median.doubled == middle_doubled(int_list@),
{
    let len = int_list.len();
    if len % 2 == 0 {
        let below: i64 = int_list[len / 2 - 1] as i64;
        let above: i64 = int_list[len / 2] as i64;
        Median { doubled: below + above }
    } else {
        let middle: i64 = int_list[len / 2] as i64;
        Median { doubled: 2 * middle }
    }
}

/// The mode of a list that is not empty, and how often it occurs. Of
/// several items that occur most often, the smallest is the mode.
pub fn find_mode(int_list: &[i32]) -> (mode: (i32, usize))
    requires
        int_list@.len() > 0,
    ensures
        is_mode(int_list@, mode.0, mode.1 as nat),
{
    broadcast use group_to_multiset_ensures;

    let ghost s = int_list@;
    let mut count_map: HashMap<i32, usize> = HashMap::new();
    let mut i: usize = 0;
    assert(s.take(0) =~= Seq::<i32>::empty());
    while i < int_list.len()
        invariant
            i <= int_list@.len(),
            s == int_list@,
            forall|v: i32| #[trigger] count_map@.contains_key(v) <==> occurrences(s.take(i as int), v) > 0,
            forall|v: i32| #[trigger]
                count_map@.contains_key(v) ==> count_map@[v] == occurrences(s.take(i as int), v),
            forall|v: i32| occurrences(s.take(i as int), v) <= i,
        decreases int_list@.len() - i,
    {
        let num = int_list[i];
        let seen: usize = match count_map.get(&num) {
            Some(count) => *count,
            None => 0,
        };
        proof {
            let before = s.take(i as int);
            let after = s.take(i + 1);
            assert(after =~= before.push(num));
            lemma_occurrences_of_push(before, num);
            assert forall|v: i32| #[trigger] occurrences(after, v) <= i + 1 by {
                assert(occurrences(before, v) <= i);
            }
        }
        count_map.insert(num, seen + 1);
        i += 1;
    }
    assert(s.take(i as int) =~= s);
    let mut mode: i32 = int_list[0];
    let mut count: usize = match count_map.get(&mode) {
        Some(count) => *count,
        None => 0,
    };
    let mut j: usize = 1;
    while j < int_list.len()
        invariant
            1 <= j <= int_list@.len(),
            s == int_list@,
            forall|v: i32| #[trigger] count_map@.contains_key(v) <==> occurrences(s, v) > 0,
            forall|v: i32| #[trigger] count_map@.contains_key(v) ==> count_map@[v] == occurrences(s, v),
            s.contains(mode),
            count == occurrences(s, mode),
            forall|k: int| 0 <= k < j ==> occurrences(s, #[trigger] s[k]) <= count,
            forall|k: int| 0 <= k < j && occurrences(s, #[trigger] s[k]) == count ==> mode <= s[k],
        decreases int_list@.len() - j,
    {
        let num = int_list[j];
        let seen: usize = match count_map.get(&num) {
            Some(count) => *count,
            None => 0,
        };
        if seen > count || (seen == count && num < mode) {
            mode = num;
            count = seen;
        }
        j += 1;
    }
    proof {
        assert forall|other: i32| occurrences(s, other) <= count && (occurrences(s, other) == count
            ==> mode <= other) by {
            if occurrences(s, other) > 0 {
                let k = choose|k: int| 0 <= k < s.len() && s[k] == other;
                assert(occurrences(s, s[k]) <= count);
            }
        }
    }
    (mode, count)
}

} // verus!
