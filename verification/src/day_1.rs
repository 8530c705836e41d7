//! Two lists of location numbers, written side by side: how far apart they
//! are when both are put in order, and how alike they are.

use std::collections::HashMap;
use vstd::prelude::*;
use vstd::relations::{sorted_by, total_ordering};
use vstd::seq_lib::lemma_sorted_unique;
use crate::text::{
    chars_of, cut_at, i64_of, lines_of, parse_i64, rows_of, split_lines, split_once, InputError,
};

verus! {

/// What parts the two numbers of a line: three spaces.
pub open spec fn parting() -> Seq<char> {
    seq![' ', ' ', ' ']
}

/// The pair of numbers that a line writes: the numbers before and after its
/// first three spaces. `Some(None)` for a line without three spaces, which
/// writes no pair; `None` where one side is no number.
pub open spec fn pair_of(line: Seq<char>) -> Option<Option<(i64, i64)>> {
    match cut_at(line, parting()) {
        None => Some(None),
        Some(sides) => match (i64_of(sides.0), i64_of(sides.1)) {
            (Some(left), Some(right)) => Some(Some((left, right))),
            _ => None,
        },
    }
}

/// The pairs that the lines write, in order, where no line is faulty.
pub open spec fn pairs_of(lines: Seq<Seq<char>>) -> Option<Seq<(i64, i64)>>
    decreases lines.len(),
{
    if lines.len() == 0 {
        Some(Seq::empty())
    } else {
        match (pairs_of(lines.drop_last()), pair_of(lines.last())) {
            (Some(before), Some(Some(pair))) => Some(before.push(pair)),
            (Some(before), Some(None)) => Some(before),
            _ => None,
        }
    }
}

/// One faulty line spoils the reading of all.
pub proof fn lemma_faulty_line(lines: Seq<Seq<char>>, k: int)
    requires
        0 <= k < lines.len(),
        pair_of(lines[k]) is None,
    ensures
        pairs_of(lines) is None,
    decreases lines.len(),
{
    if k < lines.len() - 1 {
        lemma_faulty_line(lines.drop_last(), k);
    }
}

/// The left numbers of the pairs.
pub open spec fn lefts(pairs: Seq<(i64, i64)>) -> Seq<i64> {
    Seq::new(pairs.len(), |k: int| pairs[k].0)
}

/// The right numbers of the pairs.
pub open spec fn rights(pairs: Seq<(i64, i64)>) -> Seq<i64> {
    Seq::new(pairs.len(), |k: int| pairs[k].1)
}

/// The order of the integers.
pub open spec fn at_most() -> spec_fn(i64, i64) -> bool {
    |a: i64, b: i64| a <= b
}

/// The numbers in ascending order.
pub open spec fn ascending(numbers: Seq<i64>) -> Seq<i64> {
    numbers.sort_by(at_most())
}

/// How far two numbers are apart.
pub open spec fn apart(a: i64, b: i64) -> nat {
    if a >= b {
        (a - b) as nat
    } else {
        (b - a) as nat
    }
}

/// The sum of the distances between the first `n` numbers of two lists,
/// taken pair by pair.
pub open spec fn distance_sum(left: Seq<i64>, right: Seq<i64>, n: int) -> nat
    decreases n,
{
    if n <= 0 {
        0
    } else {
        distance_sum(left, right, n - 1) + apart(left[n - 1], right[n - 1])
    }
}

/// The sum of the distances between two lists, pair by pair, as far as the
/// shorter one goes.
pub open spec fn distance(left: Seq<i64>, right: Seq<i64>) -> nat {
    distance_sum(left, right, if left.len() <= right.len() {
        left.len() as int
    } else {
        right.len() as int
    })
}

/// How often `key` occurs among the numbers.
pub open spec fn occurrences(numbers: Seq<i64>, key: i64) -> nat
    decreases numbers.len(),
{
    if numbers.len() == 0 {
        0
    } else {
        occurrences(numbers.drop_last(), key) + if numbers.last() == key {
            1nat
        } else {
            0nat
        }
    }
}

/// A location number as the unsigned integer with the same 64 bits.
pub open spec fn unsigned(number: i64) -> nat {
    if number >= 0 {
        number as nat
    } else {
        (number + 0x1_0000_0000_0000_0000) as nat
    }
}

/// The sum, over the first `n` locations, of each location times the count
/// kept for it.
pub open spec fn similarity_sum(locations: Seq<i64>, counts: spec_fn(i64) -> nat, n: int) -> nat
    decreases n,
{
    if n <= 0 {
        0
    } else {
        similarity_sum(locations, counts, n - 1) + unsigned(locations[n - 1]) * counts(
            locations[n - 1],
        )
    }
}

/// No number occurs more often than there are numbers.
pub proof fn lemma_occurrences_bounded(numbers: Seq<i64>, key: i64)
    ensures
        occurrences(numbers, key) <= numbers.len(),
    decreases numbers.len(),
{
    if numbers.len() > 0 {
        lemma_occurrences_bounded(numbers.drop_last(), key);
    }
}

/// A sum of distances over more pairs is no smaller.
pub proof fn lemma_distance_grows(left: Seq<i64>, right: Seq<i64>, m: int, n: int)
    requires
        m <= n,
    ensures
        distance_sum(left, right, m) <= distance_sum(left, right, n),
    decreases n - m,
{
    if m < n {
        lemma_distance_grows(left, right, m, n - 1);
    }
}

/// A sum of similarities over more locations is no smaller.
pub proof fn lemma_similarity_grows(
    locations: Seq<i64>,
    counts: spec_fn(i64) -> nat,
    m: int,
    n: int,
)
    requires
        m <= n,
    ensures
        similarity_sum(locations, counts, m) <= similarity_sum(locations, counts, n),
    decreases n - m,
{
    if m < n {
        lemma_similarity_grows(locations, counts, m, n - 1);
    }
}

/// Sorts `numbers` with the standard library's `sort`: afterwards they are
/// the same numbers, each as often as before, in ascending order.
#[verifier::external_body]
fn sort_numbers(numbers: &mut Vec<i64>)
    ensures
        final(numbers)@.to_multiset() == old(numbers)@.to_multiset(),
        forall|i: int, j: int|
            0 <= i <= j < final(numbers)@.len() ==> final(numbers)@[i] <= final(numbers)@[j],
{
    numbers.sort();
}

/// How often each number was counted.
pub struct FrequencyList {
    pub frequencies: HashMap<i64, i64>,
}

impl FrequencyList {
    /// The count kept for `key`: nothing where none is kept.
    pub open spec fn count(&self, key: i64) -> int {
        if self.frequencies@.contains_key(key) {
            self.frequencies@[key] as int
        } else {
            0
        }
    }

    /// The count kept for `key`, as the machine integer it is kept in.
    pub open spec fn frequency(&self, key: i64) -> i64 {
        if self.frequencies@.contains_key(key) {
            self.frequencies@[key]
        } else {
            0
        }
    }

    /// No counts.
    pub fn new() -> (list: Self)
        ensures
            forall|key: i64| list.count(key) == 0,
    {
        FrequencyList { frequencies: HashMap::new() }
    }

    /// The count kept for `key`.
    pub fn get(&self, key: i64) -> (count: i64)
        ensures
            count == self.count(key),
    {
        broadcast use vstd::std_specs::hash::group_hash_axioms;

        match self.frequencies.get(&key) {
            Some(count) => *count,
            None => 0,
        }
    }

    /// How often each number occurs in `v`.
    pub fn from_vec(v: Vec<i64>) -> (list: Self)
        requires
            v@.len() <= i64::MAX,
        ensures
            forall|key: i64| list.count(key) == occurrences(v@, key),
    {
        broadcast use vstd::std_specs::hash::group_hash_axioms;

        let mut freqs = FrequencyList::new();
        let mut k: usize = 0;
        assert(v@.take(0) =~= Seq::<i64>::empty());
        while k < v.len()
            invariant
                k <= v.len(),
                v@.len() <= i64::MAX,
                forall|key: i64| freqs.count(key) == occurrences(v@.take(k as int), key),
            decreases v.len() - k,
        {
            let n = v[k];
            proof {
                lemma_occurrences_bounded(v@.take(k as int), n);
                assert(v@.take(k + 1).drop_last() =~= v@.take(k as int));
            }
            let ghost before = freqs;
            let seen = freqs.get(n);
            freqs.frequencies.insert(n, seen + 1);
            assert forall|key: i64| freqs.count(key) == occurrences(v@.take(k + 1), key) by {
                assert(before.count(key) == occurrences(v@.take(k as int), key));
            }
            k += 1;
        }
        assert(v@.take(k as int) =~= v@);
        freqs
    }
}

/// A list of location numbers.
pub struct LocationList {
    pub locations: Vec<i64>,
}

impl LocationList {
    /// The empty list.
    pub fn new() -> (list: Self)
        ensures
            list.locations@.len() == 0,
    {
        LocationList { locations: Vec::new() }
    }

    /// The list of the numbers of `v` as they stand.
    pub fn from_vec(v: Vec<i64>) -> (list: Self)
        ensures
            list.locations == v,
    {
        LocationList { locations: v }
    }

    /// The list of the numbers of `v` in ascending order; `v` is put in
    /// order too.
    pub fn from_unsorted(v: &mut Vec<i64>) -> (list: Self)
        ensures
            final(v)@ == ascending(old(v)@),
            list.locations@ == ascending(old(v)@),
    {
        sort_numbers(v);
        proof {
            let leq = at_most();
            assert(total_ordering(leq));
            old(v)@.lemma_sort_by_ensures(leq);
            assert(sorted_by(v@, leq));
            lemma_sorted_unique(v@, old(v)@.sort_by(leq), leq);
        }
        LocationList { locations: v.clone() }
    }

    /// The sum of the distances between the numbers of the two lists, pair
    /// by pair, as far as the shorter list goes; `TooLarge` where the sum
    /// does not fit.
    pub fn find_distance(&self, other: &LocationList) -> (sum: Result<u64, InputError>)
        ensures
            match sum {
                Ok(total) => total == distance(self.locations@, other.locations@),
                Err(fault) => fault == InputError::TooLarge && distance(
                    self.locations@,
                    other.locations@,
                ) > u64::MAX,
            },
    {
        let pairs = if self.locations.len() <= other.locations.len() {
            self.locations.len()
        } else {
            other.locations.len()
        };
        let mut total: u64 = 0;
        let mut k: usize = 0;
        while k < pairs
            invariant
                k <= pairs,
                pairs <= self.locations.len(),
                pairs <= other.locations.len(),
                distance(self.locations@, other.locations@) == distance_sum(
                    self.locations@,
                    other.locations@,
                    pairs as int,
                ),
                total == distance_sum(self.locations@, other.locations@, k as int),
            decreases pairs - k,
        {
            let a = self.locations[k] as i128;
            let b = other.locations[k] as i128;
            let here = if a >= b {
                (a - b) as u64
            } else {
                (b - a) as u64
            };
            assert(here == apart(self.locations@[k as int], other.locations@[k as int]));
            assert(distance_sum(self.locations@, other.locations@, k + 1) == total + here);
            match total.checked_add(here) {
                Some(more) => {
                    total = more;
                },
                None => {
                    proof {
                        lemma_distance_grows(
                            self.locations@,
                            other.locations@,
                            k + 1,
                            pairs as int,
                        );
                    }
                    return Err(InputError::TooLarge);
                },
            }
            k += 1;
        }
        Ok(total)
    }

    /// The sum, over the locations of the list, of each location times the
    /// count that `frequencies` keeps for it, both taken as unsigned
    /// integers; `TooLarge` where the sum does not fit.
    pub fn find_similarity(&self, frequencies: &FrequencyList) -> (sum: Result<u64, InputError>)
        ensures
            match sum {
                Ok(total) => total == similarity_sum(
                    self.locations@,
                    |key: i64| unsigned(frequencies.frequency(key)),
                    self.locations@.len() as int,
                ),
                Err(fault) => fault == InputError::TooLarge && similarity_sum(
                    self.locations@,
                    |key: i64| unsigned(frequencies.frequency(key)),
                    self.locations@.len() as int,
                ) > u64::MAX,
            },
    {
        let ghost counts = |key: i64| unsigned(frequencies.frequency(key));
        let mut total: u64 = 0;
        let mut k: usize = 0;
        while k < self.locations.len()
            invariant
                k <= self.locations.len(),
                counts == (|key: i64| unsigned(frequencies.frequency(key))),
                total == similarity_sum(self.locations@, counts, k as int),
            decreases self.locations.len() - k,
        {
            let loc = self.locations[k];
            let weight: u64 = if loc >= 0 {
                loc as u64
            } else {
                (loc as i128 + 0x1_0000_0000_0000_0000) as u64
            };
            let count = frequencies.get(loc);
            let times: u64 = if count >= 0 {
                count as u64
            } else {
                (count as i128 + 0x1_0000_0000_0000_0000) as u64
            };
            assert(counts(loc) == times);
            let next = match weight.checked_mul(times) {
                Some(product) => total.checked_add(product),
                None => None,
            };
            match next {
                Some(more) => {
                    total = more;
                },
                None => {
                    proof {
                        lemma_similarity_grows(
                            self.locations@,
                            counts,
                            k + 1,
                            self.locations@.len() as int,
                        );
                    }
                    return Err(InputError::TooLarge);
                },
            }
            k += 1;
        }
        Ok(total)
    }
}

/// Reads the pairs of numbers that the text writes, one for each line that
/// has three spaces in it.
pub fn read_pairs(input: &str) -> (pairs: Option<Vec<(i64, i64)>>)
    ensures
        match pairs {
            Some(read) => pairs_of(lines_of(input@)) == Some(read@),
            None => pairs_of(lines_of(input@)) is None,
        },
{
    let chars = chars_of(input);
    let lines = split_lines(&chars);
    let spaces = vec![' ', ' ', ' '];
    assert(spaces@ =~= parting());
    let mut pairs: Vec<(i64, i64)> = Vec::new();
    let mut k: usize = 0;
    assert(rows_of(lines).take(0) =~= Seq::<Seq<char>>::empty());
    while k < lines.len()
        invariant
            k <= lines.len(),
            spaces@ == parting(),
            rows_of(lines) == lines_of(input@),
            pairs_of(rows_of(lines).take(k as int)) == Some(pairs@),
        decreases lines.len() - k,
    {
        let line = &lines[k];
        let ghost longer = rows_of(lines).take(k + 1);
        assert(longer.drop_last() =~= rows_of(lines).take(k as int));
        assert(longer.last() == line@);
        match split_once(line, &spaces) {
            Some((left, right)) => {
                match (parse_i64(&left), parse_i64(&right)) {
                    (Some(a), Some(b)) => {
                        pairs.push((a, b));
                    },
                    _ => {
                        proof {
                            lemma_faulty_line(rows_of(lines), k as int);
                        }
                        return None;
                    },
                }
            },
            None => {},
        }
        k += 1;
    }
    assert(rows_of(lines).take(k as int) =~= rows_of(lines));
    Some(pairs)
}

/// What `list_distance` owes for a text: the distance between the two
/// columns, each put in ascending order.
pub open spec fn distance_of(text: Seq<char>) -> Result<u64, InputError> {
    match pairs_of(lines_of(text)) {
        None => Err(InputError::Malformed),
        Some(pairs) => {
            let sum = distance(ascending(lefts(pairs)), ascending(rights(pairs)));
            if sum > u64::MAX {
                Err(InputError::TooLarge)
            } else {
                Ok(sum as u64)
            }
        },
    }
}

/// What `get_similarity_score` owes for a text: each number of the left
/// column, taken in ascending order, times how often it stands in the right
/// column, all added up.
pub open spec fn similarity_of(text: Seq<char>) -> Result<u64, InputError> {
    match pairs_of(lines_of(text)) {
        None => Err(InputError::Malformed),
        Some(pairs) => {
            let sum = similarity_sum(
                ascending(lefts(pairs)),
                |key: i64| occurrences(rights(pairs), key),
                pairs.len() as int,
            );
            if pairs.len() > i64::MAX || sum > u64::MAX {
                Err(InputError::TooLarge)
            } else {
                Ok(sum as u64)
            }
        },
    }
}

/// Splits pairs into the vector of their left and of their right numbers.
fn columns(pairs: &Vec<(i64, i64)>) -> (both: (Vec<i64>, Vec<i64>))
    ensures
        both.0@ == lefts(pairs@),
        both.1@ == rights(pairs@),
{
    let mut left: Vec<i64> = Vec::new();
    let mut right: Vec<i64> = Vec::new();
    let mut k: usize = 0;
    while k < pairs.len()
        invariant
            k <= pairs.len(),
            left@ == lefts(pairs@).take(k as int),
            right@ == rights(pairs@).take(k as int),
        decreases pairs.len() - k,
    {
        left.push(pairs[k].0);
        right.push(pairs[k].1);
        assert(left@ =~= lefts(pairs@).take(k + 1));
        assert(right@ =~= rights(pairs@).take(k + 1));
        k += 1;
    }
    assert(left@ =~= lefts(pairs@));
    assert(right@ =~= rights(pairs@));
    (left, right)
}

/// The sum of the distances between the two columns of the text, each put
/// in ascending order.
pub fn list_distance(input: &str) -> (sum: Result<u64, InputError>)
    ensures
        sum == distance_of(input@),
{
    let locs = match read_pairs(input) {
        Some(pairs) => pairs,
        None => {
            return Err(InputError::Malformed);
        },
    };
    let (mut left, mut right) = columns(&locs);
    let loc1 = LocationList::from_unsorted(&mut left);
    let loc2 = LocationList::from_unsorted(&mut right);
    loc1.find_distance(&loc2)
}

/// The similarity of the two columns of the text: each number of the left
/// column times how often it stands in the right column, all added up.
pub fn get_similarity_score(input: &str) -> (sum: Result<u64, InputError>)
    ensures
        sum == similarity_of(input@),
{
    let nums = match read_pairs(input) {
        Some(pairs) => pairs,
        None => {
            return Err(InputError::Malformed);
        },
    };
    if nums.len() as u64 > i64::MAX as u64 {
        return Err(InputError::TooLarge);
    }
    let (mut left, right) = columns(&nums);
    let locs = LocationList::from_unsorted(&mut left);
    let freqs = FrequencyList::from_vec(right);
    proof {
        lemma_sorted_keeps_length(lefts(nums@));
        assert((|key: i64| unsigned(freqs.frequency(key))) =~= (|key: i64|
            occurrences(rights(nums@), key))) by {
            assert forall|key: i64| unsigned(freqs.frequency(key)) == occurrences(
                rights(nums@),
                key,
            ) by {
                assert(freqs.count(key) == occurrences(rights(nums@), key));
            }
        }
    }
    locs.find_similarity(&freqs)
}

/// Putting numbers in order keeps how many there are.
pub proof fn lemma_sorted_keeps_length(numbers: Seq<i64>)
    ensures
        ascending(numbers).len() == numbers.len(),
{
    let leq = at_most();
    assert(total_ordering(leq));
    numbers.lemma_sort_by_ensures(leq);
    numbers.to_multiset_ensures();
    ascending(numbers).to_multiset_ensures();
}

} // verus!
