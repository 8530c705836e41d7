//! Stones that change with every blink: a stone marked 0 becomes a stone
//! marked 1, a stone whose mark has an even count of digits becomes two
//! stones, marked with the left and the right half of the digits, and
//! every other stone has its mark multiplied by 2024.

use std::collections::HashMap;
use vstd::prelude::*;
use crate::text::{chars_of, parse_u64s, u64s_of, InputError};

verus! {

/// How many decimal digits write `x`.
pub open spec fn digits(x: nat) -> nat
    decreases x,
{
    if x < 10 {
        1
    } else {
        1 + digits(x / 10)
    }
}

/// Ten to the power `k`.
pub open spec fn pow10(k: nat) -> nat
    decreases k,
{
    if k == 0 {
        1
    } else {
        10 * pow10((k - 1) as nat)
    }
}

/// The power of ten that parts the digits of `stone` into two halves.
pub open spec fn half_of(stone: u64) -> nat {
    pow10(digits(stone as nat) / 2)
}

/// How many stones one stone marked `stone` has become after `n` blinks, or
/// `None` where a mark on the way leaves the range of the marks.
pub open spec fn blink(stone: u64, n: nat) -> Option<nat>
    decreases n,
{
    if n == 0 {
        Some(1)
    } else if stone == 0 {
        blink(1, (n - 1) as nat)
    } else if digits(stone as nat) % 2 == 0 {
        match (
            blink((stone as nat / half_of(stone)) as u64, (n - 1) as nat),
            blink((stone as nat % half_of(stone)) as u64, (n - 1) as nat),
        ) {
            (Some(left), Some(right)) => Some(left + right),
            _ => None,
        }
    } else if stone * 2024 > u64::MAX {
        None
    } else {
        blink((stone * 2024) as u64, (n - 1) as nat)
    }
}

/// A count as it is handed out: `None` where there is none or it does not fit.
pub open spec fn fitting(count: Option<nat>) -> Option<u64> {
    match count {
        Some(stones) => if stones <= u64::MAX {
            Some(stones as u64)
        } else {
            None
        },
        None => None,
    }
}

/// How many stones the first `k` of the stones have become after `n`
/// blinks, or `None` where a mark on the way leaves the range.
pub open spec fn blink_all(stones: Seq<u64>, n: nat, k: int) -> Option<nat>
    decreases k,
{
    if k <= 0 {
        Some(0)
    } else {
        match (blink_all(stones, n, k - 1), blink(stones[k - 1], n)) {
            (Some(before), Some(last)) => Some(before + last),
            _ => None,
        }
    }
}

/// Once the count of the first stones is lost or too large, so is the count
/// of more of them.
pub proof fn lemma_blink_all_grows(stones: Seq<u64>, n: nat, m: int, k: int)
    requires
        m <= k,
        fitting(blink_all(stones, n, m)) is None,
    ensures
        fitting(blink_all(stones, n, k)) is None,
    decreases k - m,
{
    if m < k {
        lemma_blink_all_grows(stones, n, m, k - 1);
    }
}

/// What the count of the stones of a text comes to after `n` blinks:
/// `Malformed` where a word is no mark, `TooLarge` where a mark or the
/// count leaves the range.
pub open spec fn answer_of(text: Seq<char>, n: u64) -> Result<u64, InputError> {
    match u64s_of(text) {
        None => Err(InputError::Malformed),
        Some(stones) => match fitting(blink_all(stones, n as nat, stones.len() as int)) {
            Some(count) => Ok(count),
            None => Err(InputError::TooLarge),
        },
    }
}

/// The key under which the count for a stone and a number of blinks is kept.
pub open spec fn key_of(stone: u64, n: u64) -> u128 {
    (stone * 0x1_0000_0000_0000_0000 + n) as u128
}

/// Every count that the cache keeps is the count of its stone and blinks.
pub open spec fn kept_right(cache: Map<u128, u64>) -> bool {
    forall|stone: u64, n: u64| #[trigger]
        cache.contains_key(key_of(stone, n)) ==> blink(stone, n as nat) == Some(
            cache[key_of(stone, n)] as nat,
        )
}

/// Powers of ten grow with the exponent.
pub proof fn lemma_pow10_grows(a: nat, b: nat)
    requires
        a <= b,
    ensures
        1 <= pow10(a) <= pow10(b),
    decreases b,
{
    if b > 0 {
        if a < b {
            lemma_pow10_grows(a, (b - 1) as nat);
        } else {
            lemma_pow10_grows((a - 1) as nat, (b - 1) as nat);
        }
    }
}

/// The power of ten that parts the digits of `stone` into two halves, where
/// their count is even.
pub fn half_shift(stone: u64) -> (half: Option<u64>)
    ensures
        match half {
            Some(shift) => digits(stone as nat) % 2 == 0 && shift == half_of(stone),
            None => digits(stone as nat) % 2 == 1,
        },
{
    let mut rest = stone;
    let mut even = false;
    let mut half: u64 = 1;
    let ghost mut count: nat = 1;
    assert(pow10(0) * rest == stone) by {
        assert(pow10(0) == 1);
    }
    while rest >= 10
        invariant
            1 <= count,
            digits(stone as nat) == count - 1 + digits(rest as nat),
            even == (count % 2 == 0),
            half == pow10(count / 2),
            pow10((count - 1) as nat) * rest <= stone,
        decreases rest,
    {
        let ghost old_rest = rest;
        rest = rest / 10;
        even = !even;
        proof {
            assert(pow10(count) * rest <= pow10((count - 1) as nat) * old_rest)
                by (nonlinear_arith)
                requires
                    pow10(count) == 10 * pow10((count - 1) as nat),
                    10 * rest <= old_rest,
                    rest >= 0,
                    pow10((count - 1) as nat) >= 0,
            ;
            lemma_pow10_grows((count + 1) / 2, count);
            assert(pow10(count) <= pow10(count) * rest) by (nonlinear_arith)
                requires
                    rest >= 1,
                    pow10(count) >= 0,
            ;
            count = count + 1;
        }
        if even {
            assert(pow10(count / 2) == 10 * pow10(((count / 2) - 1) as nat));
            half = half * 10;
        }
    }
    if even {
        Some(half)
    } else {
        None
    }
}

/// The stones in a row.
pub struct Stones {
    pub stones: Vec<u64>,
}

impl Stones {
    /// No stones.
    pub fn new() -> (row: Self)
        ensures
            row.stones@.len() == 0,
    {
        Stones { stones: Vec::new() }
    }

    /// The stones whose marks the words of `s` write.
    pub fn from_text(s: &str) -> (row: Option<Self>)
        ensures
            match row {
                Some(read) => u64s_of(s@) == Some(read.stones@),
                None => u64s_of(s@) is None,
            },
    {
        let chars = chars_of(s);
        match parse_u64s(&chars) {
            Some(stones) => Some(Stones { stones }),
            None => None,
        }
    }

    /// How many stones the row has become after `n` blinks, or `None` where
    /// a mark or the count leaves the range.
    pub fn count_stones_after_blinks(&self, n: u64) -> (count: Option<u64>)
        ensures
            count == fitting(blink_all(self.stones@, n as nat, self.stones@.len() as int)),
    {
        let mut cache: HashMap<u128, u64> = HashMap::new();
        let mut total: u64 = 0;
        let mut k: usize = 0;
        while k < self.stones.len()
            invariant
                k <= self.stones.len(),
                kept_right(cache@),
                blink_all(self.stones@, n as nat, k as int) == Some(total as nat),
            decreases self.stones.len() - k,
        {
            let next = match self.blink_stone(&self.stones[k], n, &mut cache) {
                Some(count) => total.checked_add(count),
                None => None,
            };
            match next {
                Some(more) => {
                    total = more;
                },
                None => {
                    proof {
                        lemma_blink_all_grows(
                            self.stones@,
                            n as nat,
                            k + 1,
                            self.stones@.len() as int,
                        );
                    }
                    return None;
                },
            }
            k += 1;
        }
        Some(total)
    }

    /// How many stones one stone marked `stone` has become after `n`
    /// blinks, or `None` where a mark or the count leaves the range. Counts
    /// found are kept in `cache` and taken from it.
    pub fn blink_stone(&self, stone: &u64, n: u64, cache: &mut HashMap<u128, u64>) -> (count:
        Option<u64>)
        requires
            kept_right(old(cache)@),
        ensures
            kept_right(final(cache)@),
            count == fitting(blink(*stone, n as nat)),
        decreases n,
    {
        broadcast use vstd::std_specs::hash::group_hash_axioms;

        if n == 0 {
            return Some(1);
        }
        let key = (*stone as u128) * 0x1_0000_0000_0000_0000 + n as u128;
        assert(key == key_of(*stone, n));
        match cache.get(&key) {
            Some(count) => {
                return Some(*count);
            },
            None => {},
        }
        let count = if *stone == 0 {
            self.blink_stone(&1, n - 1, cache)
        } else {
            match half_shift(*stone) {
                Some(half) => {
                    proof {
                        lemma_pow10_grows(0, digits(*stone as nat) / 2);
                    }
                    let left = match self.blink_stone(&(*stone / half), n - 1, cache) {
                        Some(left) => left,
                        None => {
                            return None;
                        },
                    };
                    match self.blink_stone(&(*stone % half), n - 1, cache) {
                        Some(right) => left.checked_add(right),
                        None => None,
                    }
                },
                None => {
                    match stone.checked_mul(2024) {
                        Some(marked) => self.blink_stone(&marked, n - 1, cache),
                        None => None,
                    }
                },
            }
        };
        match count {
            Some(found) => {
                let ghost before = cache@;
                cache.insert(key, found);
                assert forall|s: u64, m: u64| #[trigger]
                    cache@.contains_key(key_of(s, m)) implies blink(s, m as nat) == Some(
                    cache@[key_of(s, m)] as nat,
                ) by {
                    if key_of(s, m) == key {
                        assert(s == *stone && m == n);
                    } else {
                        assert(before.contains_key(key_of(s, m)));
                    }
                }
            },
            None => {},
        }
        count
    }
}

/// How many stones the row that `input` writes has become after `n` blinks.
pub fn get_total_stones_after_blinks(input: &str, n: u64) -> (count: Result<u64, InputError>)
    ensures
        count == answer_of(input@, n),
{
    let stones = match Stones::from_text(input) {
        Some(stones) => stones,
        None => {
            return Err(InputError::Malformed);
        },
    };
    match stones.count_stones_after_blinks(n) {
        Some(count) => Ok(count),
        None => Err(InputError::TooLarge),
    }
}

} // verus!
